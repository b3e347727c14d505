//! The agent's memory: its recent steps in full, and a running summary of those before.
use vstd::prelude::*;

use crate::json::{compact, Json, JsonDocument};
use crate::numbers::{append_number, decimal};
use crate::strings::{
    join, join_strings, lemma_join_shows_more, lemma_nothing_to_replace, lemma_occurs_behind,
    lemma_occurs_between, lemma_occurs_in_front, lemma_occurs_whole, occurs, occurs_at, option_text,
    replace_all, replace_text, texts, trim, trim_text,
};
use crate::text::{append_text, from_chars, to_chars};

verus! {

/// How many of the latest steps are kept in full.
pub const MAX_VERBATIM_STEPS: usize = 6;

/// How many steps beyond those call for a new summary.
pub const SUMMARIZE_EVERY_N_STEPS: usize = 4;

/// How many characters of an observation survive its compaction.
pub const PREVIEW_CHARS: usize = 200;

// ---------------------------------------------------------------------------------------------
// Steps
// ---------------------------------------------------------------------------------------------
/// One action of the agent and what came of it.
#[derive(Debug)]
pub struct AgentStep {
    pub step_number: usize,
    pub thought: String,
    pub action: String,
    pub action_input: JsonDocument,
    pub observation: String,
}

/// What a step says.
#[verifier::ext_equal]
pub struct StepText {
    pub number: int,
    pub thought: Seq<char>,
    pub action: Seq<char>,
    pub input: Json,
    pub observation: Seq<char>,
}

impl View for AgentStep {
    type V = StepText;

    open spec fn view(&self) -> StepText {
        StepText {
            number: self.step_number as int,
            thought: self.thought@,
            action: self.action@,
            input: self.action_input@,
            observation: self.observation@,
        }
    }
}

/// What a list of steps says.
pub open spec fn step_texts(steps: Seq<AgentStep>) -> Seq<StepText> {
    steps.map_values(|s: AgentStep| s@)
}

/// A step as the model sees it.
pub open spec fn render_step(step: StepText) -> Seq<char> {
    "Thought: "@ + step.thought + "\nAction: "@ + step.action + "\nAction Input: "@ + compact(
        step.input,
    ) + "\nObservation:\n"@ + step.observation + "\n"@
}

/// The first characters of an observation.
pub open spec fn preview(observation: Seq<char>) -> Seq<char> {
    if observation.len() > PREVIEW_CHARS {
        observation.take(PREVIEW_CHARS as int)
    } else {
        observation
    }
}

/// A step on one line, with the start of its observation.
pub open spec fn render_compact_step(step: StepText) -> Seq<char> {
    "Step "@ + decimal(step.number as nat) + ": action="@ + step.action + " input="@ + compact(
        step.input,
    ) + " -> "@ + replace_all(preview(step.observation), "\n"@, " "@) + (if step.observation.len()
        > PREVIEW_CHARS {
        " [...]"@
    } else {
        ""@
    })
}

/// An observation cut down to its start.
pub open spec fn shortened(observation: Seq<char>) -> Seq<char> {
    if observation.len() > PREVIEW_CHARS {
        observation.take(PREVIEW_CHARS as int) + " [...truncated, see summary...]"@
    } else {
        observation
    }
}

/// A step with its observation cut down.
pub open spec fn shortened_step(step: StepText) -> StepText {
    StepText { observation: shortened(step.observation), ..step }
}

/// The first characters of an observation, and whether there are more.
fn take_preview(observation: &str) -> (res: (String, bool))
    ensures
        res.0@ == preview(observation@),
        res.1 == (observation@.len() > PREVIEW_CHARS),
{
    let chars = to_chars(observation);
    if chars.len() > PREVIEW_CHARS {
        let head = vstd::slice::slice_subrange(chars.as_slice(), 0, PREVIEW_CHARS);
        assert(head@ =~= observation@.take(PREVIEW_CHARS as int));
        (from_chars(head), true)
    } else {
        (observation.to_owned(), false)
    }
}

impl AgentStep {
    /// The step as the model sees it.
    pub fn render(&self) -> (res: String)
        ensures
            res@ == render_step(self@),
    {
        let mut out = "Thought: ".to_owned();
        append_text(&mut out, self.thought.as_str());
        append_text(&mut out, "\nAction: ");
        append_text(&mut out, self.action.as_str());
        append_text(&mut out, "\nAction Input: ");
        append_text(&mut out, self.action_input.text());
        append_text(&mut out, "\nObservation:\n");
        append_text(&mut out, self.observation.as_str());
        append_text(&mut out, "\n");
        out
    }

    /// The step on one line, with the start of its observation.
    pub fn render_compact(&self) -> (res: String)
        ensures
            res@ == render_compact_step(self@),
    {
        let (start, truncated) = take_preview(self.observation.as_str());
        let mut out = "Step ".to_owned();
        append_number(&mut out, self.step_number as u64);
        append_text(&mut out, ": action=");
        append_text(&mut out, self.action.as_str());
        append_text(&mut out, " input=");
        append_text(&mut out, self.action_input.text());
        append_text(&mut out, " -> ");
        proof {
            reveal_strlit("\n");
        }
        append_text(&mut out, replace_text(start.as_str(), "\n", " ").as_str());
        if truncated {
            append_text(&mut out, " [...]");
        } else {
            append_text(&mut out, "");
        }
        out
    }
}

// ---------------------------------------------------------------------------------------------
// The history
// ---------------------------------------------------------------------------------------------
/// The recent steps of a run, and a summary of those before.
#[derive(Debug)]
pub struct AgentHistory {
    pub steps: Vec<AgentStep>,
    pub summary: String,
    pub next_step_number: usize,
    pub steps_since_summary: usize,
}

/// What a history says.
#[verifier::ext_equal]
pub struct HistoryText {
    pub steps: Seq<StepText>,
    pub summary: Seq<char>,
    pub next: int,
    pub since: int,
}

impl View for AgentHistory {
    type V = HistoryText;

    open spec fn view(&self) -> HistoryText {
        HistoryText {
            steps: step_texts(self.steps@),
            summary: self.summary@,
            next: self.next_step_number as int,
            since: self.steps_since_summary as int,
        }
    }
}

/// The history of a run that has not begun.
pub open spec fn no_history() -> HistoryText {
    HistoryText { steps: Seq::<StepText>::empty(), summary: ""@, next: 1, since: 0 }
}

/// A history after one more step.
pub open spec fn recorded(
    h: HistoryText,
    thought: Seq<char>,
    action: Seq<char>,
    input: Json,
    observation: Seq<char>,
) -> HistoryText {
    HistoryText {
        steps: h.steps.push(StepText { number: h.next, thought, action, input, observation }),
        next: h.next + 1,
        ..h
    }
}

/// A history after a remark that belongs to no action: it joins the observation of the latest
/// step, or stands as a step of its own where there is none.
pub open spec fn remarked(h: HistoryText, remark: Seq<char>) -> HistoryText {
    if h.steps.len() > 0 {
        let last = h.steps.last();
        HistoryText {
            steps: h.steps.drop_last().push(
                StepText { observation: last.observation.push('\n') + remark, ..last },
            ),
            ..h
        }
    } else {
        recorded(h, ""@, "(none)"@, Json::Null, remark)
    }
}

/// How many steps there are beyond those that are kept in full.
pub open spec fn overflow(h: HistoryText) -> int {
    if h.steps.len() > MAX_VERBATIM_STEPS {
        h.steps.len() - MAX_VERBATIM_STEPS
    } else {
        0
    }
}

/// What is due before the next turn.
pub enum SummaryNeed {
    /// Nothing: all steps are kept in full.
    Nothing,
    /// To cut the observations of the oldest steps down.
    Shorten,
    /// To fold the oldest steps into the summary.
    Fold,
}

/// What is due before the next turn.
pub open spec fn summary_need(h: HistoryText) -> SummaryNeed {
    if overflow(h) == 0 {
        SummaryNeed::Nothing
    } else if overflow(h) < SUMMARIZE_EVERY_N_STEPS && h.summary.len() > 0 {
        SummaryNeed::Shorten
    } else {
        SummaryNeed::Fold
    }
}

/// A history with the observations of its `n` oldest steps cut down, or of all where there are fewer.
pub open spec fn shortened_history(h: HistoryText, n: int) -> HistoryText {
    HistoryText {
        steps: Seq::new(
            h.steps.len(),
            |i: int|
                if i < n {
                    shortened_step(h.steps[i])
                } else {
                    h.steps[i]
                },
        ),
        ..h
    }
}

/// A history when the next turn begins, but for a summary that is still to be written.
pub open spec fn prepared(h: HistoryText) -> HistoryText {
    match summary_need(h) {
        SummaryNeed::Nothing => h,
        SummaryNeed::Shorten => shortened_history(h, overflow(h)),
        SummaryNeed::Fold => h,
    }
}

/// The oldest steps, one line each.
pub open spec fn folded_text(h: HistoryText) -> Seq<char> {
    join(
        h.steps.take(overflow(h)).map_values(|s: StepText| render_compact_step(s)),
        "\n"@,
    )
}

/// What the model is asked when the oldest steps are folded into the summary.
pub open spec fn summary_prompt(h: HistoryText) -> Seq<char> {
    "Condense the following agent history into a short running summary (max ~150 words). Preserve concrete facts the agent will still need: file paths touched, key findings from search/read actions, build/test results, and any decisions made. Drop routine tool-call noise.\n\nEXISTING SUMMARY:\n"@
        + (if h.summary.len() == 0 {
        "(none yet)"@
    } else {
        h.summary
    }) + "\n\nNEW STEPS TO FOLD IN:\n"@ + folded_text(h)
        + "\n\nRespond with ONLY the updated summary text, no preamble."@
}

/// The summary that the model wrote, if it wrote any.
pub open spec fn usable_summary(reply: Option<Seq<char>>) -> Option<Seq<char>> {
    match reply {
        Some(text) => if trim(text).len() > 0 {
            Some(trim(text))
        } else {
            None
        },
        None => None,
    }
}

/// The summary after the oldest steps were folded in. Where the model wrote none, their lines
/// are appended.
pub open spec fn new_summary(h: HistoryText, reply: Option<Seq<char>>) -> Seq<char> {
    match usable_summary(reply) {
        Some(text) => text,
        None => h.summary + (if h.summary.len() == 0 {
            ""@
        } else {
            "\n"@
        }) + folded_text(h),
    }
}

/// A history after the oldest steps were folded into the summary.
pub open spec fn folded(h: HistoryText, reply: Option<Seq<char>>) -> HistoryText {
    HistoryText {
        steps: h.steps.skip(overflow(h)),
        summary: new_summary(h, reply),
        since: 0,
        ..h
    }
}

/// The transcript of the first `n` steps.
pub open spec fn render_steps(steps: Seq<StepText>, n: int) -> Seq<char>
    decreases n,
{
    if n <= 0 {
        Seq::<char>::empty()
    } else {
        render_steps(steps, n - 1) + render_step(steps[n - 1])
    }
}

/// The transcript that goes into the next prompt.
pub open spec fn render_history(h: HistoryText) -> Seq<char> {
    if h.steps.len() == 0 && h.summary.len() == 0 {
        "(nothing yet — this is your first step)"@
    } else {
        (if h.summary.len() == 0 {
            Seq::<char>::empty()
        } else {
            "Summary of earlier steps:\n"@ + h.summary + "\n\n---\n\n"@
        }) + render_steps(h.steps, h.steps.len() as int)
    }
}

impl AgentHistory {
    /// The count of steps since the last summary never leaves zero.
    pub open spec fn wf(&self) -> bool {
        self.steps_since_summary == 0
    }

    /// The history of a run that has not begun.
    pub fn new() -> (res: AgentHistory)
        ensures
            res@ == no_history(),
            res.wf(),
    {
        let res = AgentHistory {
            steps: Vec::new(),
            summary: String::new(),
            next_step_number: 1,
            steps_since_summary: 0,
        };
        proof {
            reveal_strlit("");
        }
        assert(res@ =~= no_history());
        res
    }

    /// Whether nothing has happened yet.
    pub fn is_empty(&self) -> (res: bool)
        ensures
            res == (self@.steps.len() == 0 && self@.summary.len() == 0),
    {
        self.steps.len() == 0 && self.summary.as_str().is_empty()
    }

    /// Takes a step up.
    pub fn record_step(
        &mut self,
        thought: String,
        action: String,
        action_input: JsonDocument,
        observation: String,
    )
        requires
            old(self).wf(),
            old(self).next_step_number < usize::MAX,
        ensures
            final(self).wf(),
            final(self)@ == recorded(old(self)@, thought@, action@, action_input@, observation@),
    {
        let ghost before = step_texts(self.steps@);
        let step = AgentStep {
            step_number: self.next_step_number,
            thought,
            action,
            action_input,
            observation,
        };
        let ghost text = step@;
        self.steps.push(step);
        self.next_step_number = self.next_step_number + 1;
        assert(step_texts(self.steps@) =~= before.push(text));
    }

    /// Takes a remark up that belongs to no action.
    pub fn push_bare_observation(&mut self, observation: &str)
        requires
            old(self).wf(),
            old(self).next_step_number < usize::MAX,
        ensures
            final(self).wf(),
            final(self)@ == remarked(old(self)@, observation@),
    {
        let ghost before = step_texts(self.steps@);
        let ghost h = self@;
        match self.steps.pop() {
            Some(last) => {
                assert(before.last() == last@);
                assert(step_texts(self.steps@) =~= before.drop_last());
                let AgentStep {
                    step_number,
                    thought,
                    action,
                    action_input,
                    observation: mut text,
                } = last;
                text.push('\n');
                append_text(&mut text, observation);
                let ghost rest = step_texts(self.steps@);
                let step = AgentStep {
                    step_number,
                    thought,
                    action,
                    action_input,
                    observation: text,
                };
                let ghost step_text = step@;
                self.steps.push(step);
                assert(step_texts(self.steps@) =~= rest.push(step_text));
                assert(self@ =~= remarked(h, observation@));
            },
            None => {
                assert(before.len() == 0);
                self.record_step(
                    "".to_owned(),
                    "(none)".to_owned(),
                    JsonDocument::null(),
                    observation.to_owned(),
                );
            },
        }
    }

    /// Cuts the observations of the oldest steps down, as many as there are up to `overflow`.
    pub fn compact_overflow_heuristically(&mut self, overflow: usize)
        requires
            old(self).wf(),
        ensures
            final(self).wf(),
            final(self)@ == shortened_history(old(self)@, overflow as int),
    {
        let ghost h = self@;
        let count: usize = if overflow < self.steps.len() {
            overflow
        } else {
            self.steps.len()
        };
        for i in 0..count
            invariant
                self.wf(),
                count <= self.steps@.len(),
                h == old(self)@,
                self@ == shortened_history(h, i as int),
        {
            let ghost before = self@;
            assert(before.steps.len() == self.steps@.len());
            assert(before.steps[i as int] == h.steps[i as int]);
            let (start, truncated) = take_preview(self.steps[i].observation.as_str());
            if truncated {
                let mut text = start;
                append_text(&mut text, " [...truncated, see summary...]");
                let ghost short = text@;
                self.steps[i].observation = text;
                assert(step_texts(self.steps@) =~= before.steps.update(
                    i as int,
                    shortened_step(h.steps[i as int]),
                ));
            } else {
                assert(shortened_step(h.steps[i as int]) == h.steps[i as int]);
            }
            assert(self@.steps =~= shortened_history(h, i + 1).steps);
        }
        assert(self@.steps =~= shortened_history(h, overflow as int).steps);
    }

    /// The oldest steps, one line each.
    fn fold_text(&self) -> (res: String)
        ensures
            res@ == folded_text(self@),
    {
        let n: usize = if self.steps.len() > MAX_VERBATIM_STEPS {
            self.steps.len() - MAX_VERBATIM_STEPS
        } else {
            0
        };
        let ghost all = self@.steps.take(n as int).map_values(|s: StepText| render_compact_step(s));
        let mut parts: Vec<String> = Vec::new();
        for i in 0..n
            invariant
                n <= self.steps@.len(),
                all == self@.steps.take(n as int).map_values(
                    |s: StepText| render_compact_step(s),
                ),
                texts(parts@) == all.take(i as int),
        {
            let ghost before = texts(parts@);
            let part = self.steps[i].render_compact();
            let ghost text = part@;
            assert(all[i as int] == text);
            parts.push(part);
            assert(texts(parts@) =~= before.push(text));
            assert(all.take(i + 1) =~= before.push(text));
        }
        assert(all.take(n as int) =~= all);
        join_strings(&parts, "\n")
    }

    /// Makes the history ready for the next turn. Where the oldest steps are to be folded into
    /// the summary, the result is what the model is to be asked.
    pub fn start_summary(&mut self) -> (res: Option<String>)
        requires
            old(self).wf(),
        ensures
            final(self).wf(),
            final(self)@ == prepared(old(self)@),
            match res {
                Some(prompt) => summary_need(old(self)@) is Fold && prompt@ == summary_prompt(
                    old(self)@,
                ),
                None => !(summary_need(old(self)@) is Fold),
            },
    {
        let ghost h = self@;
        if self.steps.len() <= MAX_VERBATIM_STEPS {
            return None;
        }
        let overflow: usize = self.steps.len() - MAX_VERBATIM_STEPS;
        if overflow < SUMMARIZE_EVERY_N_STEPS && !self.summary.as_str().is_empty() {
            self.compact_overflow_heuristically(overflow);
            return None;
        }
        let mut prompt =
            "Condense the following agent history into a short running summary (max ~150 words). Preserve concrete facts the agent will still need: file paths touched, key findings from search/read actions, build/test results, and any decisions made. Drop routine tool-call noise.\n\nEXISTING SUMMARY:\n".to_owned();
        if self.summary.as_str().is_empty() {
            append_text(&mut prompt, "(none yet)");
        } else {
            append_text(&mut prompt, self.summary.as_str());
        }
        append_text(&mut prompt, "\n\nNEW STEPS TO FOLD IN:\n");
        append_text(&mut prompt, self.fold_text().as_str());
        append_text(
            &mut prompt,
            "\n\nRespond with ONLY the updated summary text, no preamble.",
        );
        Some(prompt)
    }

    /// Folds the oldest steps into the summary, with what the model wrote, if it did.
    pub fn finish_summary(&mut self, reply: Option<String>)
        requires
            old(self).wf(),
            summary_need(old(self)@) is Fold,
        ensures
            final(self).wf(),
            final(self)@ == folded(old(self)@, option_text(reply)),
    {
        let ghost h = self@;
        let ghost said = option_text(reply);
        let overflow: usize = self.steps.len() - MAX_VERBATIM_STEPS;
        let written = match reply {
            Some(text) => {
                let text = trim_text(text.as_str());
                if text.as_str().is_empty() {
                    None
                } else {
                    Some(text)
                }
            },
            None => None,
        };
        let summary = match written {
            Some(text) => text,
            None => {
                let mut text = self.summary.as_str().to_owned();
                if self.summary.as_str().is_empty() {
                    append_text(&mut text, "");
                } else {
                    append_text(&mut text, "\n");
                }
                append_text(&mut text, self.fold_text().as_str());
                text
            },
        };
        assert(summary@ == new_summary(h, said));
        self.summary = summary;
        let rest = self.steps.split_off(overflow);
        assert(step_texts(rest@) =~= h.steps.skip(overflow as int));
        self.steps = rest;
        self.steps_since_summary = 0;
    }

    /// The transcript that goes into the next prompt.
    pub fn render(&self) -> (res: String)
        ensures
            res@ == render_history(self@),
    {
        if self.is_empty() {
            return "(nothing yet — this is your first step)".to_owned();
        }
        let mut out = String::new();
        if !self.summary.as_str().is_empty() {
            append_text(&mut out, "Summary of earlier steps:\n");
            append_text(&mut out, self.summary.as_str());
            append_text(&mut out, "\n\n---\n\n");
            assert(out@ =~= "Summary of earlier steps:\n"@ + self.summary@ + "\n\n---\n\n"@);
        }
        let ghost head = out@;
        assert(head + render_steps(self@.steps, 0) =~= head);
        for i in 0..self.steps.len()
            invariant
                out@ == head + render_steps(self@.steps, i as int),
        {
            let ghost before = out@;
            append_text(&mut out, self.steps[i].render().as_str());
            assert(self@.steps[i as int] == self.steps@[i as int]@);
            assert(out@ =~= head + render_steps(self@.steps, i + 1));
        }
        out
    }
}

// ---------------------------------------------------------------------------------------------
// Laws
// ---------------------------------------------------------------------------------------------
/// A history when a turn is asked for: prepared, and folded where that was due.
pub open spec fn settled(h: HistoryText, reply: Option<Seq<char>>) -> HistoryText {
    match summary_need(h) {
        SummaryNeed::Fold => folded(prepared(h), reply),
        _ => prepared(h),
    }
}

/// The steps that go into a prompt are bounded, however many were taken: there are never more
/// than those kept in full and those that wait for the next summary.
pub proof fn law_transcript_bounded(h: HistoryText, reply: Option<Seq<char>>)
    ensures
        settled(h, reply).steps.len() < MAX_VERBATIM_STEPS + SUMMARIZE_EVERY_N_STEPS,
{
}

/// The latest steps are kept in full, word for word.
pub proof fn law_latest_steps_verbatim(h: HistoryText, reply: Option<Seq<char>>, back: int)
    requires
        1 <= back <= MAX_VERBATIM_STEPS,
        back <= h.steps.len(),
    ensures
        back <= settled(h, reply).steps.len(),
        settled(h, reply).steps[settled(h, reply).steps.len() - back] == h.steps[h.steps.len()
            - back],
{
}

/// A step that is folded leaves its line behind where the model writes no summary.
pub proof fn law_fold_without_model_keeps_lines(h: HistoryText)
    requires
        summary_need(h) is Fold,
    ensures
        settled(h, None).summary == h.summary + (if h.summary.len() == 0 {
            ""@
        } else {
            "\n"@
        }) + folded_text(h),
{
    assert(folded_text(prepared(h)) == folded_text(h));
}

/// Preparing a turn never changes the number of the next step, and the count of steps since the
/// last summary stays zero.
pub proof fn law_settling_keeps_numbers(h: HistoryText, reply: Option<Seq<char>>)
    requires
        h.since == 0,
    ensures
        settled(h, reply).next == h.next,
        settled(h, reply).since == 0,
{
}

/// What one step says stands in its part of the transcript.
proof fn lemma_step_shown(step: StepText)
    ensures
        occurs(render_step(step), step.thought),
        occurs(render_step(step), step.action),
        occurs(render_step(step), compact(step.input)),
        occurs(render_step(step), step.observation),
{
    let input = compact(step.input);
    let s1 = "Thought: "@ + step.thought;
    let s2 = s1 + "\nAction: "@;
    let s3 = s2 + step.action;
    let s4 = s3 + "\nAction Input: "@;
    let s5 = s4 + input;
    let s6 = s5 + "\nObservation:\n"@;
    let s7 = s6 + step.observation;
    lemma_occurs_whole(step.thought);
    lemma_occurs_behind("Thought: "@, step.thought, step.thought);
    lemma_occurs_in_front(s1, "\nAction: "@, step.thought);
    lemma_occurs_in_front(s2, step.action, step.thought);
    lemma_occurs_in_front(s3, "\nAction Input: "@, step.thought);
    lemma_occurs_in_front(s4, input, step.thought);
    lemma_occurs_in_front(s5, "\nObservation:\n"@, step.thought);
    lemma_occurs_in_front(s6, step.observation, step.thought);
    lemma_occurs_in_front(s7, "\n"@, step.thought);
    lemma_occurs_whole(step.action);
    lemma_occurs_behind(s2, step.action, step.action);
    lemma_occurs_in_front(s3, "\nAction Input: "@, step.action);
    lemma_occurs_in_front(s4, input, step.action);
    lemma_occurs_in_front(s5, "\nObservation:\n"@, step.action);
    lemma_occurs_in_front(s6, step.observation, step.action);
    lemma_occurs_in_front(s7, "\n"@, step.action);
    lemma_occurs_whole(input);
    lemma_occurs_behind(s4, input, input);
    lemma_occurs_in_front(s5, "\nObservation:\n"@, input);
    lemma_occurs_in_front(s6, step.observation, input);
    lemma_occurs_in_front(s7, "\n"@, input);
    lemma_occurs_whole(step.observation);
    lemma_occurs_behind(s6, step.observation, step.observation);
    lemma_occurs_in_front(s7, "\n"@, step.observation);
}

/// What occurs in one step occurs in the transcript of all.
proof fn lemma_steps_shown(steps: Seq<StepText>, n: int, i: int, p: Seq<char>)
    requires
        0 <= i < n <= steps.len(),
        occurs(render_step(steps[i]), p),
    ensures
        occurs(render_steps(steps, n), p),
    decreases n,
{
    if i == n - 1 {
        lemma_occurs_between(render_steps(steps, n - 1), render_step(steps[i]), seq![], p);
    } else {
        lemma_steps_shown(steps, n - 1, i, p);
        lemma_occurs_between(seq![], render_steps(steps, n - 1), render_step(steps[n - 1]), p);
    }
}

/// What occurs in one step, or in the summary, occurs in the transcript.
proof fn lemma_history_shown(h: HistoryText, i: int, p: Seq<char>)
    requires
        0 <= i < h.steps.len(),
        occurs(render_step(h.steps[i]), p),
    ensures
        occurs(render_history(h), p),
        occurs(render_history(h), h.summary),
{
    let n = h.steps.len() as int;
    lemma_steps_shown(h.steps, n, i, p);
    let steps = render_steps(h.steps, n);
    lemma_occurs_whole(h.summary);
    if h.summary.len() == 0 {
        assert(Seq::<char>::empty() + steps =~= steps);
        assert(steps.subrange(0, 0) =~= h.summary);
        assert(occurs_at(steps, h.summary, 0));
    } else {
        let title = "Summary of earlier steps:\n"@;
        let rule = "\n\n---\n\n"@;
        lemma_occurs_between(title + h.summary + rule, steps, seq![], p);
        lemma_occurs_between(title, h.summary, rule + steps, h.summary);
        assert(title + h.summary + rule + steps =~= title + h.summary + (rule + steps));
    }
}

/// The transcript shows every step, and the summary: the thought, the action, its input and what
/// came of it stand in it word for word.
pub proof fn law_transcript_shows_the_steps(h: HistoryText, i: int)
    requires
        0 <= i < h.steps.len(),
    ensures
        occurs(render_history(h), h.steps[i].thought),
        occurs(render_history(h), h.steps[i].action),
        occurs(render_history(h), compact(h.steps[i].input)),
        occurs(render_history(h), h.steps[i].observation),
        occurs(render_history(h), h.summary),
{
    lemma_step_shown(h.steps[i]);
    lemma_history_shown(h, i, h.steps[i].thought);
    lemma_history_shown(h, i, h.steps[i].action);
    lemma_history_shown(h, i, compact(h.steps[i].input));
    lemma_history_shown(h, i, h.steps[i].observation);
}

/// The steps stand in the transcript in the order in which they were taken: a step more adds its
/// part at the end and changes nothing in front of it.
pub proof fn law_transcript_grows_at_its_end(
    h: HistoryText,
    thought: Seq<char>,
    action: Seq<char>,
    input: Json,
    observation: Seq<char>,
)
    requires
        h.steps.len() > 0 || h.summary.len() > 0,
    ensures
        render_history(recorded(h, thought, action, input, observation)) == render_history(h) + (
        "Thought: "@ + thought + "\nAction: "@ + action + "\nAction Input: "@ + compact(input)
            + "\nObservation:\n"@ + observation + "\n"@),
{
    let after = recorded(h, thought, action, input, observation);
    let n = h.steps.len() as int;
    lemma_same_steps(after.steps, h.steps, n);
    let part = render_step(after.steps[n]);
    assert(render_steps(after.steps, n + 1) == render_steps(h.steps, n) + part);
    let head = if h.summary.len() == 0 {
        Seq::<char>::empty()
    } else {
        "Summary of earlier steps:\n"@ + h.summary + "\n\n---\n\n"@
    };
    lemma_three_parts(head, render_steps(h.steps, n), part);
}

/// The transcript of the first steps depends on those steps alone.
proof fn lemma_same_steps(a: Seq<StepText>, b: Seq<StepText>, n: int)
    requires
        0 <= n <= a.len(),
        n <= b.len(),
        forall|i: int| 0 <= i < n ==> #[trigger] a[i] == b[i],
    ensures
        render_steps(a, n) == render_steps(b, n),
    decreases n,
{
    if n > 0 {
        lemma_same_steps(a, b, n - 1);
    }
}

/// Six steps are kept in full. Steps beyond those are folded into the summary as soon as there are
/// four of them, or at once where there is no summary yet; until then their observations are cut
/// down to two hundred characters, and the steps stay.
pub proof fn law_older_steps_shrink(h: HistoryText, reply: Option<Seq<char>>)
    ensures
        h.steps.len() <= 6 ==> settled(h, reply) == h,
        h.steps.len() > 6 && (h.steps.len() >= 10 || h.summary.len() == 0) ==> settled(
            h,
            reply,
        ).steps == h.steps.skip(h.steps.len() - 6),
        6 < h.steps.len() < 10 && h.summary.len() > 0 ==> {
            &&& settled(h, reply).steps.len() == h.steps.len()
            &&& settled(h, reply).summary == h.summary
            &&& forall|i: int|
                0 <= i < h.steps.len() - 6 ==> {
                    let step = #[trigger] settled(h, reply).steps[i];
                    &&& step.number == h.steps[i].number
                    &&& step.thought == h.steps[i].thought
                    &&& step.action == h.steps[i].action
                    &&& step.input == h.steps[i].input
                    &&& h.steps[i].observation.len() <= 200 ==> step.observation
                        == h.steps[i].observation
                    &&& h.steps[i].observation.len() > 200 ==> step.observation
                        == h.steps[i].observation.take(200) + " [...truncated, see summary...]"@
                }
        },
{
}

/// The prompt for a summary shows the summary so far.
pub proof fn law_summary_prompt_shows_the_summary(h: HistoryText)
    ensures
        occurs(summary_prompt(h), h.summary),
{
    let head = "Condense the following agent history into a short running summary (max ~150 words). Preserve concrete facts the agent will still need: file paths touched, key findings from search/read actions, build/test results, and any decisions made. Drop routine tool-call noise.\n\nEXISTING SUMMARY:\n"@;
    let tail = "\n\nNEW STEPS TO FOLD IN:\n"@ + folded_text(h)
        + "\n\nRespond with ONLY the updated summary text, no preamble."@;
    if h.summary.len() == 0 {
        assert(summary_prompt(h).subrange(0, 0) =~= h.summary);
        assert(occurs_at(summary_prompt(h), h.summary, 0));
    } else {
        lemma_occurs_whole(h.summary);
        lemma_occurs_between(head, h.summary, tail, h.summary);
        assert(summary_prompt(h) =~= head + h.summary + tail);
    }
}

/// The summary that the model writes takes the place of the one before, without the blanks round it.
pub proof fn law_written_summary_is_kept(h: HistoryText, text: Seq<char>)
    requires
        h.steps.len() > 6,
        h.steps.len() >= 10 || h.summary.len() == 0,
        trim(text).len() > 0,
    ensures
        settled(h, Some(text)).summary == trim(text),
{
}

proof fn lemma_three_parts(a: Seq<char>, b: Seq<char>, c: Seq<char>)
    ensures
        a + b + c == a + (b + c),
{
    assert(a + b + c =~= a + (b + c));
}

/// What stands in a line that is put together of seven parts.
proof fn lemma_shown_in_line(
    head: Seq<char>,
    x: Seq<char>,
    a: Seq<char>,
    y: Seq<char>,
    b: Seq<char>,
    rest: Seq<char>,
    end: Seq<char>,
)
    ensures
        occurs(head + x + a + y + b + rest + end, x),
        occurs(head + x + a + y + b + rest + end, y),
        occurs(head + x + a + y + b + rest + end, rest + end),
{
    let s1 = head + x;
    let s2 = s1 + a;
    let s3 = s2 + y;
    let s4 = s3 + b;
    let s5 = s4 + rest;
    lemma_occurs_whole(x);
    lemma_occurs_behind(head, x, x);
    lemma_occurs_in_front(s1, a, x);
    lemma_occurs_in_front(s2, y, x);
    lemma_occurs_in_front(s3, b, x);
    lemma_occurs_in_front(s4, rest, x);
    lemma_occurs_in_front(s5, end, x);
    lemma_occurs_whole(y);
    lemma_occurs_behind(s2, y, y);
    lemma_occurs_in_front(s3, b, y);
    lemma_occurs_in_front(s4, rest, y);
    lemma_occurs_in_front(s5, end, y);
    lemma_occurs_whole(rest + end);
    lemma_occurs_behind(s4, rest + end, rest + end);
    lemma_three_parts(s4, rest, end);
}

proof fn lemma_one_line_stays(s: Seq<char>)
    requires
        !s.contains('\n'),
    ensures
        replace_all(s, "\n"@, " "@) == s,
{
    reveal_strlit("\n");
    if occurs(s, "\n"@) {
        let i = choose|i: int| occurs_at(s, "\n"@, i);
        assert(s.subrange(i, i + 1)[0] == '\n');
        assert(s[i] == '\n');
    }
    lemma_nothing_to_replace(s, "\n"@, " "@);
}

proof fn lemma_line_of_step(step: StepText)
    ensures
        occurs(render_compact_step(step), step.action),
        occurs(render_compact_step(step), compact(step.input)),
        step.observation.len() <= 200 && !step.observation.contains('\n') ==> occurs(
            render_compact_step(step),
            step.observation,
        ),
        step.observation.len() > 200 && !step.observation.take(200).contains('\n') ==> occurs(
            render_compact_step(step),
            step.observation.take(200) + " [...]"@,
        ),
{
    let input = compact(step.input);
    let shown = preview(step.observation);
    let rest = replace_all(shown, "\n"@, " "@);
    let end = if step.observation.len() > PREVIEW_CHARS {
        " [...]"@
    } else {
        ""@
    };
    let number = decimal(step.number as nat);
    let head = "Step "@ + number + ": action="@;
    lemma_shown_in_line(head, step.action, " input="@, input, " -> "@, rest, end);
    assert(render_compact_step(step) == head + step.action + " input="@ + input + " -> "@ + rest
        + end);
    if !shown.contains('\n') {
        lemma_one_line_stays(shown);
        assert(step.observation.len() <= 200 ==> shown + end =~= step.observation) by {
            reveal_strlit("");
        }
    }
}

/// A step that is folded leaves a line behind where the model writes no summary, and the prompt for the
/// summary shows that line: it has the number of the step, its action and input, and the first two
/// hundred characters of its observation.
pub proof fn law_folded_step_leaves_its_line(h: HistoryText, i: int)
    requires
        h.steps.len() > 6,
        h.steps.len() >= 10 || h.summary.len() == 0,
        0 <= i < h.steps.len() - 6,
        h.steps[i].observation.len() > 200,
        !h.steps[i].observation.take(200).contains('\n'),
    ensures
        occurs(settled(h, None).summary, h.steps[i].action),
        occurs(settled(h, None).summary, compact(h.steps[i].input)),
        occurs(settled(h, None).summary, h.steps[i].observation.take(200) + " [...]"@),
        occurs(summary_prompt(h), h.steps[i].action),
        occurs(summary_prompt(h), compact(h.steps[i].input)),
        occurs(summary_prompt(h), h.steps[i].observation.take(200) + " [...]"@),
{
    lemma_line_of_step(h.steps[i]);
    lemma_folded_line(h, i, h.steps[i].action);
    lemma_folded_line(h, i, compact(h.steps[i].input));
    lemma_folded_line(h, i, h.steps[i].observation.take(200) + " [...]"@);
}

/// A step that is folded leaves a line behind with the whole of a short observation.
pub proof fn law_short_step_leaves_its_line(h: HistoryText, i: int)
    requires
        h.steps.len() > 6,
        h.steps.len() >= 10 || h.summary.len() == 0,
        0 <= i < h.steps.len() - 6,
        h.steps[i].observation.len() <= 200,
        !h.steps[i].observation.contains('\n'),
    ensures
        occurs(settled(h, None).summary, h.steps[i].action),
        occurs(settled(h, None).summary, compact(h.steps[i].input)),
        occurs(settled(h, None).summary, h.steps[i].observation),
        occurs(summary_prompt(h), h.steps[i].observation),
{
    lemma_line_of_step(h.steps[i]);
    lemma_folded_line(h, i, h.steps[i].action);
    lemma_folded_line(h, i, compact(h.steps[i].input));
    lemma_folded_line(h, i, h.steps[i].observation);
}

proof fn lemma_folded_line(h: HistoryText, i: int, p: Seq<char>)
    requires
        h.steps.len() > 6,
        h.steps.len() >= 10 || h.summary.len() == 0,
        0 <= i < h.steps.len() - 6,
        occurs(render_compact_step(h.steps[i]), p),
    ensures
        occurs(settled(h, None).summary, p),
        occurs(summary_prompt(h), p),
{
    let lines = h.steps.take(overflow(h)).map_values(|s: StepText| render_compact_step(s));
    assert(lines[i] == render_compact_step(h.steps[i]));
    lemma_join_shows_more(lines, "\n"@, i, p);
    let folded = folded_text(h);
    assert(folded == join(lines, "\n"@));
    assert(prepared(h) == h);
    let front = h.summary + (if h.summary.len() == 0 {
        ""@
    } else {
        "\n"@
    });
    lemma_occurs_between(front, folded, seq![], p);
    let head = "Condense the following agent history into a short running summary (max ~150 words). Preserve concrete facts the agent will still need: file paths touched, key findings from search/read actions, build/test results, and any decisions made. Drop routine tool-call noise.\n\nEXISTING SUMMARY:\n"@
        + (if h.summary.len() == 0 {
        "(none yet)"@
    } else {
        h.summary
    }) + "\n\nNEW STEPS TO FOLD IN:\n"@;
    lemma_occurs_between(
        head,
        folded,
        "\n\nRespond with ONLY the updated summary text, no preamble."@,
        p,
    );
}

} // verus!
