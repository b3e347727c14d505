//! A run of edits: they are looked at, proposed, and, after a yes, written one by one.
use vstd::prelude::*;

use crate::edits::{
    confirms, decide_edit, edit_action, edit_report, edit_texts, note_for,
    report_edits, says_yes, skip_note, ActionText, EditAction, EditBlock, EditResult, EditText,
    FileLookup, LookupText,
};
use crate::numbers::decimal;
use crate::strings::{
    has_prefix, join, join_strings, lemma_join_shows_parts, lemma_occurs_behind,
    lemma_occurs_between, lemma_occurs_in_front, lemma_occurs_whole, occurs, option_text, texts,
};
use crate::text::append_text;

verus! {

// ---------------------------------------------------------------------------------------------
// Commands and events
// ---------------------------------------------------------------------------------------------
/// What is to be done next. Edits are named by their position.
#[derive(Debug)]
pub enum EditCommand {
    /// Look the file of an edit up. Its content matters for a replacement only.
    Inspect(usize),
    /// Show the edits that can be made, and ask whether to make them.
    Ask,
    /// Look the file of an edit up again, and make the folder of a file that is to be made.
    Open(usize),
    /// Write the file of an edit.
    Write { edit: usize, content: String },
    /// Show a warning.
    Warn(String),
    /// End, with what the agent is told and whether anything was written.
    Finish { observation: String, applied: bool },
}

/// What a command says.
#[verifier::ext_equal]
pub enum EditCommandText {
    Inspect(int),
    Ask,
    Open(int),
    Write { edit: int, content: Seq<char> },
    Warn(Seq<char>),
    Finish { observation: Seq<char>, applied: bool },
}

impl View for EditCommand {
    type V = EditCommandText;

    open spec fn view(&self) -> EditCommandText {
        match *self {
            EditCommand::Inspect(i) => EditCommandText::Inspect(i as int),
            EditCommand::Ask => EditCommandText::Ask,
            EditCommand::Open(i) => EditCommandText::Open(i as int),
            EditCommand::Write { edit, content } => EditCommandText::Write {
                edit: edit as int,
                content: content@,
            },
            EditCommand::Warn(text) => EditCommandText::Warn(text@),
            EditCommand::Finish { observation, applied } => EditCommandText::Finish {
                observation: observation@,
                applied,
            },
        }
    }
}

/// What came of a command.
#[derive(Debug)]
pub enum EditEvent {
    /// What the disk says of a file.
    Looked(FileLookup),
    /// The folder of a file that is to be made could not be made, for this reason.
    NoFolder { folder: String, reason: String },
    /// The answer, if one could be read.
    Answered(Option<String>),
    /// The warning was shown.
    Shown,
    /// The file was written, or was not, for this reason.
    Written(Result<(), String>),
}

/// What an event says.
#[verifier::ext_equal]
pub enum EditEventText {
    Looked(LookupText),
    NoFolder { folder: Seq<char>, reason: Seq<char> },
    Answered(Option<Seq<char>>),
    Shown,
    Written(Result<(), Seq<char>>),
}

impl View for EditEvent {
    type V = EditEventText;

    open spec fn view(&self) -> EditEventText {
        match *self {
            EditEvent::Looked(file) => EditEventText::Looked(file@),
            EditEvent::NoFolder { folder, reason } => EditEventText::NoFolder {
                folder: folder@,
                reason: reason@,
            },
            EditEvent::Answered(answer) => EditEventText::Answered(option_text(answer)),
            EditEvent::Shown => EditEventText::Shown,
            EditEvent::Written(result) => EditEventText::Written(
                match result {
                    Ok(_) => Ok(()),
                    Err(e) => Err(e@),
                },
            ),
        }
    }
}

// ---------------------------------------------------------------------------------------------
// The model of a run
// ---------------------------------------------------------------------------------------------
/// What a run waits for.
#[derive(Debug, Clone, Copy, PartialEq, Eq, Structural)]
pub enum EditPhase {
    Inspecting,
    Asking,
    Opening,
    Writing,
    Warning,
    Done,
}

/// The state of a run: the edits, the positions of those that can be made, why the others cannot,
/// how far it has come, and how many edits were written.
#[verifier::ext_equal]
pub struct EditRunText {
    pub edits: Seq<EditText>,
    pub valid: Seq<int>,
    pub notes: Seq<Seq<char>>,
    pub next: int,
    pub applied: int,
    pub phase: EditPhase,
}

/// Ends a run.
pub open spec fn finish(r: EditRunText, report: (Seq<char>, bool)) -> (
    EditRunText,
    EditCommandText,
) {
    (
        EditRunText { phase: EditPhase::Done, ..r },
        EditCommandText::Finish { observation: report.0, applied: report.1 },
    )
}

/// A run before anything was looked at.
pub open spec fn fresh_edits(edits: Seq<EditText>) -> EditRunText {
    EditRunText {
        edits,
        valid: Seq::<int>::empty(),
        notes: Seq::<Seq<char>>::empty(),
        next: 0,
        applied: 0,
        phase: EditPhase::Inspecting,
    }
}

/// Begins a run. Without edits it is over at once.
pub open spec fn begin_edits(edits: Seq<EditText>) -> (EditRunText, EditCommandText) {
    if edits.len() == 0 {
        finish(
            fresh_edits(edits),
            ("No edit blocks were provided (or none had the required fields)."@, false),
        )
    } else {
        (fresh_edits(edits), EditCommandText::Inspect(0))
    }
}

/// The run after the file of an edit was looked at.
pub open spec fn inspected(r: EditRunText, file: LookupText) -> (EditRunText, EditCommandText) {
    let now = match skip_note(r.edits[r.next], file) {
        Some(note) => EditRunText { notes: r.notes.push(note), next: r.next + 1, ..r },
        None => EditRunText { valid: r.valid.push(r.next), next: r.next + 1, ..r },
    };
    if now.next < now.edits.len() {
        (now, EditCommandText::Inspect(now.next))
    } else if now.valid.len() == 0 {
        finish(
            now,
            ("No valid edit blocks could be applied. Issues: "@ + join(now.notes, "; "@), false),
        )
    } else {
        (EditRunText { phase: EditPhase::Asking, ..now }, EditCommandText::Ask)
    }
}

/// Goes on with the next edit that is to be made, if there is one.
pub open spec fn open_next(r: EditRunText) -> (EditRunText, EditCommandText) {
    if r.next < r.valid.len() {
        (
            EditRunText { phase: EditPhase::Opening, ..r },
            EditCommandText::Open(r.valid[r.next]),
        )
    } else {
        finish(r, edit_report(EditResult::Applied(r.applied as usize), r.notes))
    }
}

/// The run after an answer.
pub open spec fn answered(r: EditRunText, answer: Option<Seq<char>>) -> (
    EditRunText,
    EditCommandText,
) {
    match answer {
        None => finish(r, edit_report(EditResult::NoAnswer, r.notes)),
        Some(text) => if says_yes(text) {
            open_next(EditRunText { next: 0, ..r })
        } else {
            finish(r, edit_report(EditResult::Declined, r.notes))
        },
    }
}

/// What is said of a folder that could not be made.
pub open spec fn folder_warning(folder: Seq<char>, reason: Seq<char>) -> Seq<char> {
    " Warning: could not create directory "@ + folder + ": "@ + reason
}

/// The run after the file of an edit was opened.
pub open spec fn opened(r: EditRunText, file: LookupText) -> (EditRunText, EditCommandText) {
    let edit = r.valid[r.next];
    match edit_action(r.edits[edit], file) {
        ActionText::Write(content) => (
            EditRunText { phase: EditPhase::Writing, ..r },
            EditCommandText::Write { edit, content },
        ),
        ActionText::Skip(text) => (
            EditRunText { phase: EditPhase::Warning, ..r },
            EditCommandText::Warn(text),
        ),
    }
}

/// What the agent is told where a file could not be written, after `applied` edits were.
pub open spec fn failure_report(applied: int, reason: Seq<char>) -> (Seq<char>, bool) {
    ("Error applying edits: "@ + reason, applied > 0)
}

/// Whether a run waits for an event of that kind.
pub open spec fn edit_awaits(phase: EditPhase, event: EditEventText) -> bool {
    match event {
        EditEventText::Looked(_) => phase == EditPhase::Inspecting || phase == EditPhase::Opening,
        EditEventText::NoFolder { .. } => phase == EditPhase::Opening,
        EditEventText::Answered(_) => phase == EditPhase::Asking,
        EditEventText::Shown => phase == EditPhase::Warning,
        EditEventText::Written(_) => phase == EditPhase::Writing,
    }
}

/// The run after an event, and what is to be done next.
pub open spec fn edit_step(r: EditRunText, event: EditEventText) -> (EditRunText, EditCommandText) {
    match event {
        EditEventText::Looked(file) => if r.phase == EditPhase::Inspecting {
            inspected(r, file)
        } else {
            opened(r, file)
        },
        EditEventText::NoFolder { folder, reason } => (
            EditRunText { phase: EditPhase::Warning, ..r },
            EditCommandText::Warn(folder_warning(folder, reason)),
        ),
        EditEventText::Answered(answer) => answered(r, answer),
        EditEventText::Shown => open_next(EditRunText { next: r.next + 1, ..r }),
        EditEventText::Written(result) => match result {
            Ok(_) => open_next(
                EditRunText { next: r.next + 1, applied: r.applied + 1, ..r },
            ),
            Err(reason) => finish(r, failure_report(r.applied, reason)),
        },
    }
}

// ---------------------------------------------------------------------------------------------
// What every run keeps
// ---------------------------------------------------------------------------------------------
/// Whether the state of a run is in order.
pub open spec fn edit_run_wf(r: EditRunText) -> bool {
    &&& 0 <= r.next
    &&& 0 <= r.applied <= r.next
    &&& r.edits.len() <= usize::MAX
    &&& r.valid.len() <= r.edits.len()
    &&& forall|k: int| 0 <= k < r.valid.len() ==> 0 <= #[trigger] r.valid[k] < r.edits.len()
    &&& r.phase == EditPhase::Inspecting ==> r.next < r.edits.len() && r.applied == 0
        && r.valid.len() <= r.next
    &&& r.phase == EditPhase::Asking ==> r.applied == 0
    &&& r.phase == EditPhase::Opening || r.phase == EditPhase::Writing || r.phase
        == EditPhase::Warning ==> r.next < r.valid.len()
}

/// The state of a run stays in order, whatever happens.
pub proof fn law_edit_step_keeps_order(r: EditRunText, event: EditEventText)
    requires
        edit_run_wf(r),
        edit_awaits(r.phase, event),
    ensures
        edit_run_wf(edit_step(r, event).0),
{
}

/// Positions as mathematical numbers.
pub open spec fn positions_of(v: Seq<usize>) -> Seq<int> {
    v.map_values(|i: usize| i as int)
}

// ---------------------------------------------------------------------------------------------
// The run
// ---------------------------------------------------------------------------------------------
/// A run of edits. It says what is to be done, and is told what came of it.
#[derive(Debug)]
pub struct EditRun {
    edits: Vec<EditBlock>,
    valid: Vec<usize>,
    notes: Vec<String>,
    next: usize,
    applied: usize,
    phase: EditPhase,
}

impl View for EditRun {
    type V = EditRunText;

    closed spec fn view(&self) -> EditRunText {
        EditRunText {
            edits: edit_texts(self.edits@),
            valid: positions_of(self.valid@),
            notes: texts(self.notes@),
            next: self.next as int,
            applied: self.applied as int,
            phase: self.phase,
        }
    }
}

impl EditRun {
    /// Begins a run.
    pub fn start(edits: Vec<EditBlock>) -> (res: (EditRun, EditCommand))
        ensures
            (res.0@, res.1@) == begin_edits(edit_texts(edits@)),
            edit_run_wf(res.0@),
    {
        let none = edits.len() == 0;
        let mut run = EditRun {
            edits,
            valid: Vec::new(),
            notes: Vec::new(),
            next: 0,
            applied: 0,
            phase: EditPhase::Inspecting,
        };
        assert(run@ =~= fresh_edits(edit_texts(edits@)));
        if none {
            run.phase = EditPhase::Done;
            let observation =
                "No edit blocks were provided (or none had the required fields).".to_owned();
            (run, EditCommand::Finish { observation, applied: false })
        } else {
            (run, EditCommand::Inspect(0))
        }
    }

    /// The edits of the run.
    pub fn edits(&self) -> (res: &Vec<EditBlock>)
        ensures
            edit_texts(res@) == self@.edits,
    {
        &self.edits
    }

    /// The positions of the edits that can be made.
    pub fn valid(&self) -> (res: &Vec<usize>)
        ensures
            positions_of(res@) == self@.valid,
    {
        &self.valid
    }

    /// Whether the run waits for an event of that kind.
    pub fn accepts(&self, event: &EditEvent) -> (res: bool)
        ensures
            res == edit_awaits(self@.phase, event@),
    {
        match event {
            EditEvent::Looked(_) => self.phase == EditPhase::Inspecting || self.phase
                == EditPhase::Opening,
            EditEvent::NoFolder { .. } => self.phase == EditPhase::Opening,
            EditEvent::Answered(_) => self.phase == EditPhase::Asking,
            EditEvent::Shown => self.phase == EditPhase::Warning,
            EditEvent::Written(_) => self.phase == EditPhase::Writing,
        }
    }

    /// Ends the run.
    fn finish(&mut self, result: EditResult) -> (res: EditCommand)
        ensures
            (final(self)@, res@) == finish(old(self)@, edit_report(result, old(self)@.notes)),
    {
        self.phase = EditPhase::Done;
        let (observation, applied) = report_edits(&result, &self.notes);
        EditCommand::Finish { observation, applied }
    }

    /// Goes on with the next edit that is to be made, if there is one.
    fn open_next(&mut self) -> (res: EditCommand)
        ensures
            (final(self)@, res@) == open_next(old(self)@),
    {
        if self.next < self.valid.len() {
            self.phase = EditPhase::Opening;
            assert(self@.valid[self.next as int] == self.valid@[self.next as int] as int);
            EditCommand::Open(self.valid[self.next])
        } else {
            let applied = self.applied;
            self.finish(EditResult::Applied(applied))
        }
    }

    /// Takes up what the disk says of the file of an edit.
    fn inspected(&mut self, file: &FileLookup) -> (res: EditCommand)
        requires
            edit_run_wf(old(self)@),
            old(self)@.phase == EditPhase::Inspecting,
        ensures
            (final(self)@, res@) == inspected(old(self)@, file@),
    {
        let ghost before = self@;
        let i = self.next;
        assert(before.edits.len() == self.edits@.len());
        assert(before.edits[i as int] == self.edits@[i as int]@);
        match note_for(&self.edits[i], file) {
            Some(note) => {
                let ghost text = note@;
                self.notes.push(note);
                assert(texts(self.notes@) =~= before.notes.push(text));
            },
            None => {
                self.valid.push(i);
                assert(positions_of(self.valid@) =~= before.valid.push(i as int));
            },
        }
        self.next = i + 1;
        if self.next < self.edits.len() {
            EditCommand::Inspect(self.next)
        } else if self.valid.len() == 0 {
            self.phase = EditPhase::Done;
            let mut observation = "No valid edit blocks could be applied. Issues: ".to_owned();
            append_text(&mut observation, join_strings(&self.notes, "; ").as_str());
            EditCommand::Finish { observation, applied: false }
        } else {
            self.phase = EditPhase::Asking;
            EditCommand::Ask
        }
    }

    /// Takes up what the disk says of the file of an edit that is to be made.
    fn opened(&mut self, file: &FileLookup) -> (res: EditCommand)
        requires
            edit_run_wf(old(self)@),
            old(self)@.phase == EditPhase::Opening,
        ensures
            (final(self)@, res@) == opened(old(self)@, file@),
    {
        let ghost before = self@;
        assert(before.valid.len() == self.valid@.len());
        let edit = self.valid[self.next];
        assert(before.valid[self.next as int] == edit as int);
        assert(before.edits.len() == self.edits@.len());
        assert(before.edits[edit as int] == self.edits@[edit as int]@);
        match decide_edit(&self.edits[edit], file) {
            EditAction::Write(content) => {
                self.phase = EditPhase::Writing;
                EditCommand::Write { edit, content }
            },
            EditAction::Skip(text) => {
                self.phase = EditPhase::Warning;
                EditCommand::Warn(text)
            },
        }
    }

    /// Tells the run what came of its last command. The result is what is to be done next.
    pub fn advance(&mut self, event: EditEvent) -> (res: EditCommand)
        requires
            edit_run_wf(old(self)@),
            edit_awaits(old(self)@.phase, event@),
        ensures
            (final(self)@, res@) == edit_step(old(self)@, event@),
            edit_run_wf(final(self)@),
    {
        proof {
            law_edit_step_keeps_order(self@, event@);
            assert(self@.valid.len() == self.valid@.len());
        }
        match event {
            EditEvent::Looked(file) => {
                if self.phase == EditPhase::Inspecting {
                    self.inspected(&file)
                } else {
                    self.opened(&file)
                }
            },
            EditEvent::NoFolder { folder, reason } => {
                self.phase = EditPhase::Warning;
                let mut text = " Warning: could not create directory ".to_owned();
                append_text(&mut text, folder.as_str());
                append_text(&mut text, ": ");
                append_text(&mut text, reason.as_str());
                EditCommand::Warn(text)
            },
            EditEvent::Answered(answer) => match answer {
                None => self.finish(EditResult::NoAnswer),
                Some(text) => {
                    if confirms(text.as_str()) {
                        self.next = 0;
                        self.open_next()
                    } else {
                        self.finish(EditResult::Declined)
                    }
                },
            },
            EditEvent::Shown => {
                self.next = self.next + 1;
                self.open_next()
            },
            EditEvent::Written(result) => match result {
                Ok(_) => {
                    self.next = self.next + 1;
                    self.applied = self.applied + 1;
                    self.open_next()
                },
                Err(reason) => {
                    let applied = self.applied;
                    self.finish(EditResult::Failed { applied, reason })
                },
            },
        }
    }
}

// ---------------------------------------------------------------------------------------------
// Laws
// ---------------------------------------------------------------------------------------------
/// Nothing is written without a yes: from inspecting and asking, a run comes to its edits only by
/// an answer that is one.
pub proof fn law_writing_needs_a_yes(r: EditRunText, event: EditEventText)
    requires
        edit_run_wf(r),
        edit_awaits(r.phase, event),
        r.phase == EditPhase::Inspecting || r.phase == EditPhase::Asking,
        edit_step(r, event).1 is Open || edit_step(r, event).1 is Write,
    ensures
        event matches EditEventText::Answered(Some(text)) && says_yes(text),
{
}

/// Only edits that passed the inspection are written, each with what it makes of the file as it is
/// then.
pub proof fn law_only_inspected_edits_are_written(r: EditRunText, event: EditEventText)
    requires
        edit_run_wf(r),
        edit_awaits(r.phase, event),
        edit_step(r, event).1 is Write,
    ensures
        r.valid.contains(edit_step(r, event).1->edit),
        event matches EditEventText::Looked(file) && edit_action(
            r.edits[edit_step(r, event).1->edit],
            file,
        ) == ActionText::Write(edit_step(r, event).1->content),
{
}

/// The edits that an inspection lets pass are those without a note, and every other edit has its note.
pub proof fn law_inspection_sorts_edits(r: EditRunText, file: LookupText)
    requires
        edit_run_wf(r),
        r.phase == EditPhase::Inspecting,
    ensures
        inspected(r, file).0.valid.len() + inspected(r, file).0.notes.len() == r.valid.len()
            + r.notes.len() + 1,
        inspected(r, file).0.valid.len() > r.valid.len() <==> skip_note(r.edits[r.next], file)
            is None,
{
}

/// A run reports as many edits as it wrote: the count goes up with every file that was written,
/// and with nothing else.
pub proof fn law_count_is_what_was_written(r: EditRunText, event: EditEventText)
    requires
        edit_run_wf(r),
        edit_awaits(r.phase, event),
    ensures
        edit_step(r, event).0.applied == r.applied + (if event is Written && event->Written_0
            is Ok {
            1int
        } else {
            0
        }),
{
}

/// A run says truly whether anything was written, however it ends, after a failed write too.
pub proof fn law_finish_tells_what_was_written(r: EditRunText, event: EditEventText)
    requires
        edit_run_wf(r),
        edit_awaits(r.phase, event),
        edit_step(r, event).1 is Finish,
    ensures
        edit_step(r, event).1->applied == (edit_step(r, event).0.applied > 0),
{
}

/// How far a run is from its end, at most.
pub open spec fn edit_distance(r: EditRunText) -> int {
    match r.phase {
        EditPhase::Inspecting => (r.edits.len() - r.next) + 3 * r.edits.len() + 3,
        EditPhase::Asking => 3 * (r.edits.len() as int) + 2,
        EditPhase::Opening => 3 * (r.valid.len() - r.next) + 1,
        EditPhase::Writing => 3 * (r.valid.len() - r.next),
        EditPhase::Warning => 3 * (r.valid.len() - r.next),
        EditPhase::Done => 0,
    }
}

/// Every run ends: each event brings it nearer to its end, and it ends exactly with the command to
/// finish.
pub proof fn law_edit_run_ends(r: EditRunText, event: EditEventText)
    requires
        edit_run_wf(r),
        edit_awaits(r.phase, event),
    ensures
        0 <= edit_distance(edit_step(r, event).0) < edit_distance(r),
        (edit_step(r, event).1 is Finish) == (edit_step(r, event).0.phase == EditPhase::Done),
{
}

/// The edits are inspected one by one, from the first to the last, and each either goes on the list of
/// those that can be made or leaves its note. Behind the last the user is asked, where any can be
/// made, and else the run ends with all notes.
pub proof fn law_every_edit_is_inspected(r: EditRunText, file: LookupText)
    requires
        edit_run_wf(r),
        r.phase == EditPhase::Inspecting,
    ensures
        ({
            let after = edit_step(r, EditEventText::Looked(file));
            &&& after.0.edits == r.edits
            &&& after.0.next == r.next + 1
            &&& after.0.applied == r.applied
            &&& skip_note(r.edits[r.next], file) is None ==> after.0.valid == r.valid.push(r.next)
                && after.0.notes == r.notes
            &&& skip_note(r.edits[r.next], file) matches Some(note) ==> after.0.notes
                == r.notes.push(note) && after.0.valid == r.valid
            &&& r.next + 1 < r.edits.len() ==> after.1 == EditCommandText::Inspect(r.next + 1)
            &&& r.next + 1 == r.edits.len() && after.0.valid.len() > 0 ==> after.1
                == EditCommandText::Ask
            &&& r.next + 1 == r.edits.len() && after.0.valid.len() == 0 ==> after.1 is Finish
                && !after.1->applied && forall|k: int|
                0 <= k < after.0.notes.len() ==> occurs(
                    after.1->observation,
                    #[trigger] after.0.notes[k],
                )
        }),
{
    let after = edit_step(r, EditEventText::Looked(file));
    if after.1 is Finish {
        let head = "No valid edit blocks could be applied. Issues: "@;
        assert forall|k: int| 0 <= k < after.0.notes.len() implies occurs(
            after.1->observation,
            #[trigger] after.0.notes[k],
        ) by {
            lemma_join_shows_parts(after.0.notes, "; "@, k);
            lemma_occurs_between(head, join(after.0.notes, "; "@), seq![], after.0.notes[k]);
        }
    }
}

/// A run begins with its first edit, and without edits it ends at once with nothing written.
pub proof fn law_run_begins_with_the_first_edit(edits: Seq<EditText>)
    ensures
        edits.len() > 0 ==> begin_edits(edits).1 == EditCommandText::Inspect(0),
        edits.len() == 0 ==> begin_edits(edits).1 is Finish && !(begin_edits(edits).1->applied),
        begin_edits(edits).0.edits == edits,
        begin_edits(edits).0.valid.len() == 0,
        begin_edits(edits).0.notes.len() == 0,
        begin_edits(edits).0.applied == 0,
{
}

/// A yes leads to the first edit that can be made; any other answer, and none, ends the run with
/// nothing written.
pub proof fn law_answer_decides(r: EditRunText, answer: Option<Seq<char>>)
    requires
        edit_run_wf(r),
        r.phase == EditPhase::Asking,
        r.valid.len() > 0,
    ensures
        ({
            let after = edit_step(r, EditEventText::Answered(answer));
            &&& (answer matches Some(text) && says_yes(text)) ==> after.1 == EditCommandText::Open(
                r.valid[0],
            ) && after.0.next == 0
            &&& !(answer matches Some(text) && says_yes(text)) ==> after.1 is Finish
                && !after.1->applied
            &&& (answer matches Some(text) && !says_yes(text)) ==> after.1->observation
                == "User declined to apply these edits."@
            &&& answer is None ==> after.1->observation
                == "Error reading user confirmation from stdin; edits were not applied."@
        }),
{
}

/// The edits that can be made are opened in the order in which they were proposed, each once: behind
/// one that was written, or passed over, comes the next, and behind the last the report on them.
pub proof fn law_edits_are_made_in_order(r: EditRunText, event: EditEventText)
    requires
        edit_run_wf(r),
        edit_awaits(r.phase, event),
        r.phase == EditPhase::Writing || r.phase == EditPhase::Warning,
        event matches EditEventText::Written(result) ==> result is Ok,
    ensures
        edit_step(r, event).0.next == r.next + 1,
        edit_step(r, event).0.valid == r.valid,
        edit_step(r, event).0.edits == r.edits,
        edit_step(r, event).0.notes == r.notes,
        r.next + 1 < r.valid.len() ==> edit_step(r, event).1 == EditCommandText::Open(
            r.valid[r.next + 1],
        ),
        r.next + 1 == r.valid.len() ==> edit_step(r, event).1 is Finish && has_prefix(
            edit_step(r, event).1->observation,
            "Applied "@ + decimal(edit_step(r, event).0.applied as nat) + " edit(s) to disk."@,
        ),
{
    let after = edit_step(r, event);
    if r.next + 1 == r.valid.len() {
        let start = "Applied "@ + decimal(after.0.applied as nat) + " edit(s) to disk."@;
        reveal_strlit(" edit(s) to disk. Skipped: ");
        reveal_strlit(" edit(s) to disk.");
        assert(after.1->observation.take(start.len() as int) =~= start);
    }
}

/// The edit that is written is the one that was opened, with what it makes of its file; one that makes
/// nothing of it is passed over with a warning.
pub proof fn law_opened_edit_is_written(r: EditRunText, file: LookupText)
    requires
        edit_run_wf(r),
        r.phase == EditPhase::Opening,
    ensures
        edit_action(r.edits[r.valid[r.next]], file) matches ActionText::Write(content)
            ==> edit_step(r, EditEventText::Looked(file)).1 == (EditCommandText::Write {
            edit: r.valid[r.next],
            content,
        }),
        edit_action(r.edits[r.valid[r.next]], file) matches ActionText::Skip(text) ==> edit_step(
            r,
            EditEventText::Looked(file),
        ).1 == EditCommandText::Warn(text),
        edit_step(r, EditEventText::Looked(file)).0.next == r.next,
{
}

/// A write that fails ends the run, and the report tells why.
pub proof fn law_failed_write_ends_the_run(r: EditRunText, reason: Seq<char>)
    requires
        edit_run_wf(r),
        r.phase == EditPhase::Writing,
    ensures
        edit_step(r, EditEventText::Written(Err(reason))).1 is Finish,
        occurs(edit_step(r, EditEventText::Written(Err(reason))).1->observation, reason),
        edit_step(r, EditEventText::Written(Err(reason))).1->applied == (r.applied > 0),
{
    lemma_occurs_whole(reason);
    lemma_occurs_between("Error applying edits: "@, reason, seq![], reason);
}

/// A folder that could not be made is told, with the reason, and the run goes on behind the edit that
/// needed it.
pub proof fn law_missing_folder_is_told(
    r: EditRunText,
    folder: Seq<char>,
    reason: Seq<char>,
)
    requires
        edit_run_wf(r),
        r.phase == EditPhase::Opening,
    ensures
        ({
            let after = edit_step(r, EditEventText::NoFolder { folder, reason });
            &&& after.1 is Warn
            &&& occurs(after.1->Warn_0, folder)
            &&& occurs(after.1->Warn_0, reason)
            &&& after.0.phase == EditPhase::Warning
            &&& after.0.next == r.next
            &&& after.0.applied == r.applied
        }),
{
    lemma_occurs_whole(folder);
    lemma_occurs_whole(reason);
    let head = " Warning: could not create directory "@;
    lemma_occurs_behind(head, folder, folder);
    lemma_occurs_in_front(head + folder, ": "@, folder);
    lemma_occurs_in_front(head + folder + ": "@, reason, folder);
    lemma_occurs_behind(head + folder + ": "@, reason, reason);
}

/// In each phase a run takes the events of that phase and no others.
pub proof fn law_each_phase_awaits_its_events(event: EditEventText)
    ensures
        edit_awaits(EditPhase::Inspecting, event) <==> event is Looked,
        edit_awaits(EditPhase::Asking, event) <==> event is Answered,
        edit_awaits(EditPhase::Opening, event) <==> event is Looked || event is NoFolder,
        edit_awaits(EditPhase::Writing, event) <==> event is Written,
        edit_awaits(EditPhase::Warning, event) <==> event is Shown,
        !edit_awaits(EditPhase::Done, event),
{
}

} // verus!
