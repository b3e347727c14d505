//! Edits to files: how a model writes them down, and what they make of a file.
use vstd::prelude::*;

use crate::json::{
    law_text_members_are_found, lists, lists_no_text, proper, text_member, Json, JsonValue,
};
use crate::numbers::{append_number, decimal};
use crate::strings::{
    contains_chars, has_prefix, is_blank, join, join_slices, join_strings,
    law_trim_takes_blanks_off, lemma_join_shows_parts, lemma_nothing_to_replace,
    lemma_occurs_between, lemma_occurs_whole, lemma_pieces_extended, lemma_trim_blank, lines,
    occurs, pieces, replace_all, replace_first, replaced_all, replaced_first, split_lines,
    starts_with, strip_prefixes, stripped_prefixes, text_contains, texts, trim, trim_text, trimmed,
    views, Separator,
};
use crate::text::{append_text, from_chars, is_ws, same_text, to_chars};

verus! {

/// What an edit does to a file.
#[derive(Debug, Clone, Copy, PartialEq, Eq, Structural)]
pub enum EditMode {
    /// Puts new text in the place of text that is there.
    Replace,
    /// Adds text at the end.
    Append,
    /// Makes a file that is not there.
    Create,
}

/// One edit to one file.
#[derive(Debug)]
pub struct EditBlock {
    pub file_path: String,
    pub mode: EditMode,
    pub search: String,
    pub replace: String,
}

/// What an edit says.
#[verifier::ext_equal]
pub struct EditText {
    pub file_path: Seq<char>,
    pub mode: EditMode,
    pub search: Seq<char>,
    pub replace: Seq<char>,
}

impl View for EditBlock {
    type V = EditText;

    open spec fn view(&self) -> EditText {
        EditText {
            file_path: self.file_path@,
            mode: self.mode,
            search: self.search@,
            replace: self.replace@,
        }
    }
}

/// What a list of edits says.
pub open spec fn edit_texts(v: Seq<EditBlock>) -> Seq<EditText> {
    v.map_values(|b: EditBlock| b@)
}

// ---------------------------------------------------------------------------------------------
// Edits between markers
// ---------------------------------------------------------------------------------------------
/// Where a reader of marked blocks stands.
#[verifier::ext_equal]
pub struct BlockScan {
    pub file: Seq<char>,
    pub in_search: bool,
    pub in_replace: bool,
    pub search: Seq<Seq<char>>,
    pub replace: Seq<Seq<char>>,
    pub blocks: Seq<EditText>,
}

/// Where a reader stands before the first line.
pub open spec fn block_start() -> BlockScan {
    BlockScan {
        file: Seq::<char>::empty(),
        in_search: false,
        in_replace: false,
        search: Seq::<Seq<char>>::empty(),
        replace: Seq::<Seq<char>>::empty(),
        blocks: Seq::<EditText>::empty(),
    }
}

/// The edit that ends here. Without lines to search for, it makes a new file.
pub open spec fn finished_block(st: BlockScan) -> EditText {
    EditText {
        file_path: st.file,
        mode: if st.search.len() == 0 {
            EditMode::Create
        } else {
            EditMode::Replace
        },
        search: join(st.search, "\n"@),
        replace: join(st.replace, "\n"@),
    }
}

/// Where a reader stands after one more line.
pub open spec fn block_step(st: BlockScan, line: Seq<char>) -> BlockScan {
    if has_prefix(line, "FILE:"@) {
        BlockScan { file: trim(strip_prefixes(line, "FILE:"@)), ..st }
    } else if has_prefix(line, "<<<<<<< SEARCH"@) {
        BlockScan { in_search: true, search: Seq::<Seq<char>>::empty(), ..st }
    } else if has_prefix(line, "======="@) {
        BlockScan {
            in_search: false,
            in_replace: true,
            replace: Seq::<Seq<char>>::empty(),
            ..st
        }
    } else if has_prefix(line, ">>>>>>> REPLACE"@) {
        BlockScan {
            in_replace: false,
            blocks: if st.file.len() > 0 && st.replace.len() > 0 {
                st.blocks.push(finished_block(st))
            } else {
                st.blocks
            },
            ..st
        }
    } else if st.in_search {
        BlockScan { search: st.search.push(line), ..st }
    } else if st.in_replace {
        BlockScan { replace: st.replace.push(line), ..st }
    } else {
        st
    }
}

/// Where a reader stands after the first `n` lines.
pub open spec fn block_run(ls: Seq<Seq<char>>, n: int) -> BlockScan
    decreases n,
{
    if n <= 0 {
        block_start()
    } else {
        block_step(block_run(ls, n - 1), ls[n - 1])
    }
}

/// The edits in the lines of a reply.
pub open spec fn marked_edits(ls: Seq<Seq<char>>) -> Seq<EditText> {
    block_run(ls, ls.len() as int).blocks
}

/// The edits that a reply holds between markers.
pub fn parse_edit_blocks(raw_text: &str) -> (res: Vec<EditBlock>)
    ensures
        edit_texts(res@) == marked_edits(lines(raw_text@)),
{
    let chars = to_chars(raw_text);
    let ls = split_lines(chars.as_slice());
    let ghost all = lines(raw_text@);
    let mut file: Vec<char> = Vec::new();
    let mut in_search = false;
    let mut in_replace = false;
    let mut search: Vec<&[char]> = Vec::new();
    let mut replace: Vec<&[char]> = Vec::new();
    let mut blocks: Vec<EditBlock> = Vec::new();
    assert(views(search@) =~= Seq::<Seq<char>>::empty());
    assert(edit_texts(blocks@) =~= Seq::<EditText>::empty());
    for i in 0..ls.len()
        invariant
            views(ls@) == all,
            block_run(all, i as int) == (BlockScan {
                file: file@,
                in_search,
                in_replace,
                search: views(search@),
                replace: views(replace@),
                blocks: edit_texts(blocks@),
            }),
    {
        let line = ls[i];
        assert(all[i as int] == line@);
        let ghost before = block_run(all, i as int);
        assert(block_run(all, i + 1) == block_step(before, line@));
        if starts_with(line, "FILE:") {
            proof {
                reveal_strlit("FILE:");
            }
            file = to_chars(from_chars(trimmed(stripped_prefixes(line, "FILE:"))).as_str());
        } else if starts_with(line, "<<<<<<< SEARCH") {
            in_search = true;
            search = Vec::new();
            assert(views(search@) =~= Seq::<Seq<char>>::empty());
        } else if starts_with(line, "=======") {
            in_search = false;
            in_replace = true;
            replace = Vec::new();
            assert(views(replace@) =~= Seq::<Seq<char>>::empty());
        } else if starts_with(line, ">>>>>>> REPLACE") {
            in_replace = false;
            if file.len() > 0 && replace.len() > 0 {
                let mode = if search.len() == 0 {
                    EditMode::Create
                } else {
                    EditMode::Replace
                };
                let block = EditBlock {
                    file_path: from_chars(file.as_slice()),
                    mode,
                    search: from_chars(join_slices(&search, "\n").as_slice()),
                    replace: from_chars(join_slices(&replace, "\n").as_slice()),
                };
                let ghost text = block@;
                assert(text == finished_block(before));
                blocks.push(block);
                assert(edit_texts(blocks@) =~= before.blocks.push(text));
            }
        } else if in_search {
            search.push(line);
            assert(views(search@) =~= before.search.push(line@));
        } else if in_replace {
            replace.push(line);
            assert(views(replace@) =~= before.replace.push(line@));
        }
    }
    blocks
}

// ---------------------------------------------------------------------------------------------
// Edits in JSON
// ---------------------------------------------------------------------------------------------
/// The mode that a member names. Every other name, and none, means a replacement.
pub open spec fn mode_named(name: Option<Seq<char>>) -> EditMode {
    match name {
        Some(n) => if n == "append"@ {
            EditMode::Append
        } else if n == "create"@ {
            EditMode::Create
        } else {
            EditMode::Replace
        },
        None => EditMode::Replace,
    }
}

/// A text, or the empty text where there is none.
pub open spec fn text_or_empty(text: Option<Seq<char>>) -> Seq<char> {
    match text {
        Some(t) => t,
        None => Seq::<char>::empty(),
    }
}

/// The edit that an item of a list says, if it says one: it needs a path, new text, and, for a
/// replacement, text to search for.
pub open spec fn edit_of(item: Json) -> Option<EditText> {
    let mode = mode_named(text_member(item, "mode"@));
    let search = text_or_empty(text_member(item, "search"@));
    let replace = text_or_empty(text_member(item, "replace"@));
    match text_member(item, "file_path"@) {
        Some(file_path) => if replace.len() == 0 || (mode == EditMode::Replace && search.len()
            == 0) {
            None
        } else {
            Some(EditText { file_path, mode, search, replace })
        },
        None => None,
    }
}

/// The edits among the first `n` items.
pub open spec fn edits_up_to(items: Seq<Json>, n: int) -> Seq<EditText>
    decreases n,
{
    if n <= 0 {
        Seq::<EditText>::empty()
    } else {
        match edit_of(items[n - 1]) {
            Some(edit) => edits_up_to(items, n - 1).push(edit),
            None => edits_up_to(items, n - 1),
        }
    }
}

/// The edits that a list says. A value that is no list says none.
pub open spec fn edits_of(j: Json) -> Seq<EditText> {
    match j {
        Json::Array(items) => edits_up_to(items, items.len() as int),
        _ => Seq::<EditText>::empty(),
    }
}

/// The text of a member, or the empty text.
fn member_or_empty(item: &JsonValue, key: &str) -> (res: String)
    ensures
        res@ == text_or_empty(text_member(item@, key@)),
{
    match item.text_member(key) {
        Some(text) => text.to_owned(),
        None => String::new(),
    }
}

/// The edit that an item of a list says, if it says one.
fn parse_edit(item: &JsonValue) -> (res: Option<EditBlock>)
    ensures
        match res {
            Some(block) => edit_of(item@) == Some(block@),
            None => edit_of(item@) is None,
        },
{
    let file_path = match item.text_member("file_path") {
        Some(path) => path.to_owned(),
        None => {
            return None;
        },
    };
    let mode = match item.text_member("mode") {
        Some(name) => if same_text(name, "append") {
            EditMode::Append
        } else if same_text(name, "create") {
            EditMode::Create
        } else {
            EditMode::Replace
        },
        None => EditMode::Replace,
    };
    let search = member_or_empty(item, "search");
    let replace = member_or_empty(item, "replace");
    if replace.as_str().is_empty() {
        return None;
    }
    if mode == EditMode::Replace && search.as_str().is_empty() {
        return None;
    }
    Some(EditBlock { file_path, mode, search, replace })
}

/// The edits that a list says. Items that lack what they need are left out.
pub fn parse_edit_blocks_from_value(v: &JsonValue) -> (res: Vec<EditBlock>)
    ensures
        edit_texts(res@) == edits_of(v@),
{
    let mut blocks: Vec<EditBlock> = Vec::new();
    assert(edit_texts(blocks@) =~= Seq::<EditText>::empty());
    match v {
        JsonValue::Array(items) => {
            let ghost all = v@->Array_0;
            for i in 0..items.len()
                invariant
                    *v == JsonValue::Array(*items),
                    v@ == Json::Array(all),
                    all.len() == items@.len(),
                    edit_texts(blocks@) == edits_up_to(all, i as int),
            {
                assert(all[i as int] == items@[i as int]@);
                let ghost before = edit_texts(blocks@);
                match parse_edit(&items[i]) {
                    Some(block) => {
                        let ghost text = block@;
                        blocks.push(block);
                        assert(edit_texts(blocks@) =~= before.push(text));
                    },
                    None => {},
                }
            }
        },
        _ => {},
    }
    blocks
}

// ---------------------------------------------------------------------------------------------
// What an edit makes of a file
// ---------------------------------------------------------------------------------------------
/// A text with its line ends written as line feeds.
pub open spec fn unix_lines(s: Seq<char>) -> Seq<char> {
    replace_all(s, "\r\n"@, "\n"@)
}

/// A text with the line ends of a file.
pub open spec fn line_ends_of(file: Seq<char>, s: Seq<char>) -> Seq<char> {
    if occurs(file, "\r\n"@) {
        replace_all(s, "\n"@, "\r\n"@)
    } else {
        s
    }
}

/// Whether a file holds the text that a replacement looks for, line ends aside.
pub open spec fn holds_search(content: Seq<char>, search: Seq<char>) -> bool {
    occurs(unix_lines(content), unix_lines(search))
}

/// A file after a replacement: the first occurrence of the search text is gone.
pub open spec fn replaced_file(
    content: Seq<char>,
    search: Seq<char>,
    replace: Seq<char>,
) -> Seq<char> {
    line_ends_of(
        content,
        replace_first(unix_lines(content), unix_lines(search), unix_lines(replace)),
    )
}

/// A file after text was added at its end, on a line of its own.
pub open spec fn appended_file(content: Seq<char>, replace: Seq<char>) -> Seq<char> {
    line_ends_of(
        content,
        unix_lines(content) + (if content.len() == 0 || content.last() == '\n' {
            ""@
        } else {
            "\n"@
        }) + unix_lines(replace) + "\n"@,
    )
}

/// What an edit makes of a file, if it can be made. An edit that makes a new file does not look
/// at `content`.
pub open spec fn edited_file(edit: EditText, content: Seq<char>) -> Option<Seq<char>> {
    match edit.mode {
        EditMode::Create => Some(unix_lines(edit.replace)),
        EditMode::Replace => if holds_search(content, edit.search) {
            Some(replaced_file(content, edit.search, edit.replace))
        } else {
            None
        },
        EditMode::Append => Some(appended_file(content, edit.replace)),
    }
}

/// A text with its line ends written as line feeds.
fn to_unix_lines(text: &str) -> (res: Vec<char>)
    ensures
        res@ == unix_lines(text@),
{
    proof {
        reveal_strlit("\r\n");
    }
    let chars = to_chars(text);
    replaced_all(chars.as_slice(), "\r\n", "\n")
}

/// A text with the line ends of a file.
fn with_line_ends_of(file: &str, s: &[char]) -> (res: String)
    ensures
        res@ == line_ends_of(file@, s@),
{
    if text_contains(file, "\r\n") {
        proof {
            reveal_strlit("\n");
        }
        from_chars(replaced_all(s, "\n", "\r\n").as_slice())
    } else {
        from_chars(s)
    }
}

/// Whether a file holds the text that a replacement looks for, line ends aside.
pub fn contains_search(content: &str, search: &str) -> (res: bool)
    ensures
        res == holds_search(content@, search@),
{
    contains_chars(to_unix_lines(content).as_slice(), to_unix_lines(search).as_slice())
}

/// What an edit makes of a file, if it can be made.
pub fn edit_content(block: &EditBlock, content: &str) -> (res: Option<String>)
    ensures
        match res {
            Some(text) => edited_file(block@, content@) == Some(text@),
            None => edited_file(block@, content@) is None,
        },
{
    let replace = to_unix_lines(block.replace.as_str());
    match block.mode {
        EditMode::Create => Some(from_chars(replace.as_slice())),
        EditMode::Replace => {
            let normal = to_unix_lines(content);
            let search = to_unix_lines(block.search.as_str());
            if !contains_chars(normal.as_slice(), search.as_slice()) {
                return None;
            }
            let new = replaced_first(normal.as_slice(), search.as_slice(), replace.as_slice());
            Some(with_line_ends_of(content, new.as_slice()))
        },
        EditMode::Append => {
            let chars = to_chars(content);
            let mut new = from_chars(to_unix_lines(content).as_slice());
            if chars.len() == 0 || chars[chars.len() - 1] == '\n' {
                append_text(&mut new, "");
            } else {
                append_text(&mut new, "\n");
            }
            append_text(&mut new, from_chars(replace.as_slice()).as_str());
            append_text(&mut new, "\n");
            Some(with_line_ends_of(content, to_chars(new.as_str()).as_slice()))
        },
    }
}

// ---------------------------------------------------------------------------------------------
// Which edits can be made
// ---------------------------------------------------------------------------------------------
/// What the disk says of the file that an edit names: its path, where an edit of that mode can
/// go there, and its content or why that could not be read.
#[derive(Debug)]
pub struct FileLookup {
    pub path: Option<String>,
    pub content: Result<String, String>,
}

/// What a lookup says.
#[verifier::ext_equal]
pub struct LookupText {
    pub path: Option<Seq<char>>,
    pub content: Result<Seq<char>, Seq<char>>,
}

impl View for FileLookup {
    type V = LookupText;

    open spec fn view(&self) -> LookupText {
        LookupText {
            path: match self.path {
                Some(p) => Some(p@),
                None => None,
            },
            content: match self.content {
                Ok(t) => Ok(t@),
                Err(e) => Err(e@),
            },
        }
    }
}

/// Why an edit is not proposed, if it is not.
pub open spec fn skip_note(edit: EditText, file: LookupText) -> Option<Seq<char>> {
    match file.path {
        None => if edit.mode == EditMode::Create {
            Some(
                "cannot create "@ + edit.file_path
                    + ": a file already exists at that path (use replace/append instead)"@,
            )
        } else {
            Some("file not found: "@ + edit.file_path)
        },
        Some(path) => if edit.mode == EditMode::Replace {
            match file.content {
                Err(_) => Some("could not read "@ + path),
                Ok(content) => if holds_search(content, edit.search) {
                    None
                } else {
                    Some("SEARCH text not found in "@ + path)
                },
            }
        } else {
            None
        },
    }
}

/// Why an edit is not proposed, if it is not.
pub fn note_for(block: &EditBlock, file: &FileLookup) -> (res: Option<String>)
    ensures
        match res {
            Some(note) => skip_note(block@, file@) == Some(note@),
            None => skip_note(block@, file@) is None,
        },
{
    match &file.path {
        None => {
            if block.mode == EditMode::Create {
                let mut note = "cannot create ".to_owned();
                append_text(&mut note, block.file_path.as_str());
                append_text(
                    &mut note,
                    ": a file already exists at that path (use replace/append instead)",
                );
                Some(note)
            } else {
                let mut note = "file not found: ".to_owned();
                append_text(&mut note, block.file_path.as_str());
                Some(note)
            }
        },
        Some(path) => {
            if block.mode == EditMode::Replace {
                match &file.content {
                    Err(_) => {
                        let mut note = "could not read ".to_owned();
                        append_text(&mut note, path.as_str());
                        Some(note)
                    },
                    Ok(content) => {
                        if contains_search(content.as_str(), block.search.as_str()) {
                            None
                        } else {
                            let mut note = "SEARCH text not found in ".to_owned();
                            append_text(&mut note, path.as_str());
                            Some(note)
                        }
                    },
                }
            } else {
                None
            }
        },
    }
}

// ---------------------------------------------------------------------------------------------
// Asking, and what came of it
// ---------------------------------------------------------------------------------------------
/// How a line of a proposal is shown.
#[derive(Debug, Clone, Copy, PartialEq, Eq, Structural)]
pub enum ProposalKind {
    Note,
    Removed,
    Added,
}

/// A line of a proposal.
#[derive(Debug)]
pub struct ProposalLine {
    pub kind: ProposalKind,
    pub text: String,
}

/// What the lines of a proposal say.
pub open spec fn proposal_texts(v: Seq<ProposalLine>) -> Seq<(ProposalKind, Seq<char>)> {
    v.map_values(|l: ProposalLine| (l.kind, l.text@))
}

/// Lines with a mark in front.
pub open spec fn marked_lines(
    kind: ProposalKind,
    mark: Seq<char>,
    ls: Seq<Seq<char>>,
) -> Seq<(ProposalKind, Seq<char>)> {
    ls.map_values(|l: Seq<char>| (kind, mark + l))
}

/// How an edit is shown before it is made.
pub open spec fn proposal(edit: EditText) -> Seq<(ProposalKind, Seq<char>)> {
    let added = marked_lines(ProposalKind::Added, "+ "@, lines(edit.replace));
    match edit.mode {
        EditMode::Replace => marked_lines(ProposalKind::Removed, "- "@, lines(edit.search)) + added,
        EditMode::Append => seq![(ProposalKind::Note, "(appending to end of file)"@)] + added,
        EditMode::Create => seq![(ProposalKind::Note, "(creating new file)"@)] + added,
    }
}

/// Appends the lines of a text, with a mark in front.
fn push_marked(out: &mut Vec<ProposalLine>, kind: ProposalKind, mark: &str, text: &str)
    ensures
        proposal_texts(final(out)@) == proposal_texts(old(out)@) + marked_lines(
            kind,
            mark@,
            lines(text@),
        ),
{
    let chars = to_chars(text);
    let ls = split_lines(chars.as_slice());
    let ghost before = proposal_texts(out@);
    let ghost all = marked_lines(kind, mark@, lines(text@));
    for i in 0..ls.len()
        invariant
            views(ls@) == lines(text@),
            all == marked_lines(kind, mark@, lines(text@)),
            proposal_texts(out@) == before + all.take(i as int),
    {
        let ghost now = proposal_texts(out@);
        let mut line = mark.to_owned();
        append_text(&mut line, from_chars(ls[i]).as_str());
        assert(lines(text@)[i as int] == ls@[i as int]@);
        assert(all[i as int] == (kind, line@));
        out.push(ProposalLine { kind, text: line });
        assert(proposal_texts(out@) =~= now.push(all[i as int]));
        assert(all.take(i + 1) =~= all.take(i as int).push(all[i as int]));
    }
    assert(all.take(all.len() as int) =~= all);
}

/// How an edit is shown before it is made.
pub fn propose_edit(block: &EditBlock) -> (res: Vec<ProposalLine>)
    ensures
        proposal_texts(res@) == proposal(block@),
{
    let mut out: Vec<ProposalLine> = Vec::new();
    assert(proposal_texts(out@) =~= Seq::<(ProposalKind, Seq<char>)>::empty());
    match block.mode {
        EditMode::Replace => {
            push_marked(&mut out, ProposalKind::Removed, "- ", block.search.as_str());
        },
        EditMode::Append => {
            out.push(
                ProposalLine {
                    kind: ProposalKind::Note,
                    text: "(appending to end of file)".to_owned(),
                },
            );
            assert(proposal_texts(out@) =~= seq![
                (ProposalKind::Note, "(appending to end of file)"@),
            ]);
        },
        EditMode::Create => {
            out.push(
                ProposalLine { kind: ProposalKind::Note, text: "(creating new file)".to_owned() },
            );
            assert(proposal_texts(out@) =~= seq![(ProposalKind::Note, "(creating new file)"@)]);
        },
    }
    push_marked(&mut out, ProposalKind::Added, "+ ", block.replace.as_str());
    assert(proposal_texts(out@) =~= proposal(block@));
    out
}

/// Whether an answer is a yes.
pub open spec fn says_yes(answer: Seq<char>) -> bool {
    trim(answer) == "y"@ || trim(answer) == "Y"@
}

/// Whether an answer is a yes.
pub fn confirms(answer: &str) -> (res: bool)
    ensures
        res == says_yes(answer@),
{
    let answer = trim_text(answer);
    same_text(answer.as_str(), "y") || same_text(answer.as_str(), "Y")
}

/// What came of the edits that were proposed.
#[derive(Debug)]
pub enum EditResult {
    /// The answer could not be read.
    NoAnswer,
    /// The answer was no.
    Declined,
    /// This many edits were written.
    Applied(usize),
    /// Writing failed, with this message, after this many edits were written.
    Failed { applied: usize, reason: String },
}

/// What the agent is told of the edits, and whether any was written.
pub open spec fn edit_report(result: EditResult, notes: Seq<Seq<char>>) -> (Seq<char>, bool) {
    match result {
        EditResult::NoAnswer => (
            "Error reading user confirmation from stdin; edits were not applied."@,
            false,
        ),
        EditResult::Declined => ("User declined to apply these edits."@, false),
        EditResult::Applied(n) => (
            "Applied "@ + decimal(n as nat) + " edit(s) to disk. Skipped: "@ + (if notes.len()
                == 0 {
                "none"@
            } else {
                join(notes, "; "@)
            }),
            n > 0,
        ),
        EditResult::Failed { applied, reason } => (
            "Error applying edits: "@ + reason@,
            applied > 0,
        ),
    }
}

/// What the agent is told of the edits, and whether any was written.
pub fn report_edits(result: &EditResult, notes: &Vec<String>) -> (res: (String, bool))
    ensures
        (res.0@, res.1) == edit_report(*result, texts(notes@)),
{
    match result {
        EditResult::NoAnswer => (
            "Error reading user confirmation from stdin; edits were not applied.".to_owned(),
            false,
        ),
        EditResult::Declined => ("User declined to apply these edits.".to_owned(), false),
        EditResult::Applied(n) => {
            let mut text = "Applied ".to_owned();
            append_number(&mut text, *n as u64);
            append_text(&mut text, " edit(s) to disk. Skipped: ");
            if notes.len() == 0 {
                append_text(&mut text, "none");
            } else {
                append_text(&mut text, join_strings(notes, "; ").as_str());
            }
            (text, *n > 0)
        },
        EditResult::Failed { applied, reason } => {
            let mut text = "Error applying edits: ".to_owned();
            append_text(&mut text, reason.as_str());
            (text, *applied > 0)
        },
    }
}

// ---------------------------------------------------------------------------------------------
// Writing one edit
// ---------------------------------------------------------------------------------------------
/// What is to be done for an edit whose file was looked up.
#[derive(Debug)]
pub enum EditAction {
    /// Write this as the content of the file.
    Write(String),
    /// Pass the edit over, with this warning.
    Skip(String),
}

/// What an action says.
#[verifier::ext_equal]
pub enum ActionText {
    Write(Seq<char>),
    Skip(Seq<char>),
}

impl View for EditAction {
    type V = ActionText;

    open spec fn view(&self) -> ActionText {
        match *self {
            EditAction::Write(text) => ActionText::Write(text@),
            EditAction::Skip(text) => ActionText::Skip(text@),
        }
    }
}

/// What is to be done for an edit whose file was looked up.
pub open spec fn edit_action(edit: EditText, file: LookupText) -> ActionText {
    match file.path {
        None => if edit.mode == EditMode::Create {
            ActionText::Skip(
                " Warning: refusing to create "@ + edit.file_path + " — already exists"@,
            )
        } else {
            ActionText::Skip(" Warning: File not found: "@ + edit.file_path)
        },
        Some(path) => if edit.mode == EditMode::Create {
            ActionText::Write(unix_lines(edit.replace))
        } else {
            match file.content {
                Err(e) => ActionText::Skip(" Warning: could not read "@ + path + ": "@ + e),
                Ok(content) => match edited_file(edit, content) {
                    Some(text) => ActionText::Write(text),
                    None => ActionText::Skip(" Search block missing or mismatched in "@ + path),
                },
            }
        },
    }
}

/// What is to be done for an edit whose file was looked up.
pub fn decide_edit(block: &EditBlock, file: &FileLookup) -> (res: EditAction)
    ensures
        res@ == edit_action(block@, file@),
{
    match &file.path {
        None => {
            if block.mode == EditMode::Create {
                let mut text = " Warning: refusing to create ".to_owned();
                append_text(&mut text, block.file_path.as_str());
                append_text(&mut text, " — already exists");
                EditAction::Skip(text)
            } else {
                let mut text = " Warning: File not found: ".to_owned();
                append_text(&mut text, block.file_path.as_str());
                EditAction::Skip(text)
            }
        },
        Some(path) => {
            if block.mode == EditMode::Create {
                EditAction::Write(
                    from_chars(to_unix_lines(block.replace.as_str()).as_slice()),
                )
            } else {
                match &file.content {
                    Err(e) => {
                        let mut text = " Warning: could not read ".to_owned();
                        append_text(&mut text, path.as_str());
                        append_text(&mut text, ": ");
                        append_text(&mut text, e.as_str());
                        EditAction::Skip(text)
                    },
                    Ok(content) => match edit_content(block, content.as_str()) {
                        Some(text) => EditAction::Write(text),
                        None => {
                            let mut text = " Search block missing or mismatched in ".to_owned();
                            append_text(&mut text, path.as_str());
                            EditAction::Skip(text)
                        },
                    },
                }
            }
        },
    }
}

// ---------------------------------------------------------------------------------------------
// Where the file of an edit may be
// ---------------------------------------------------------------------------------------------
/// A path as a model writes it, without the prefix of long paths and with forward slashes.
pub open spec fn clean_path(path: Seq<char>) -> Seq<char> {
    replace_all(strip_prefixes(path, "\\\\?\\"@), "\\"@, "/"@)
}

/// A path as a model writes it, without the prefix of long paths and with forward slashes.
pub fn cleaned_path(path: &str) -> (res: String)
    ensures
        res@ == clean_path(path@),
{
    proof {
        reveal_strlit("\\\\?\\");
        reveal_strlit("\\");
    }
    let chars = to_chars(path);
    let short = stripped_prefixes(chars.as_slice(), "\\\\?\\");
    from_chars(replaced_all(short, "\\", "/").as_slice())
}

/// What is left of a path that begins with the name of the project's folder.
pub open spec fn below_folder(path: Seq<char>, folder: Seq<char>) -> Option<Seq<char>> {
    if has_prefix(path, folder + "/"@) {
        Some(path.skip(folder.len() as int + 1))
    } else {
        None
    }
}

/// What is left of a path that begins with the name of the project's folder.
pub fn path_below_folder(path: &str, folder: &str) -> (res: Option<String>)
    ensures
        match res {
            Some(rest) => below_folder(path@, folder@) == Some(rest@),
            None => below_folder(path@, folder@) is None,
        },
{
    proof {
        reveal_strlit("/");
    }
    let mut prefix = folder.to_owned();
    append_text(&mut prefix, "/");
    let chars = to_chars(path);
    if starts_with(chars.as_slice(), prefix.as_str()) {
        let len = to_chars(prefix.as_str()).len();
        let rest = vstd::slice::slice_subrange(chars.as_slice(), len, chars.len());
        assert(rest@ =~= path@.skip(folder@.len() as int + 1));
        Some(from_chars(rest))
    } else {
        None
    }
}

/// A place where the file of an edit may be.
#[derive(Debug)]
pub enum PathProbe {
    /// This path.
    AsGiven(String),
    /// This path below the project's folder.
    InProject(String),
    /// The first file of that name anywhere in the project.
    SameName(String),
}

/// What a place says.
#[verifier::ext_equal]
pub enum ProbeText {
    AsGiven(Seq<char>),
    InProject(Seq<char>),
    SameName(Seq<char>),
}

impl View for PathProbe {
    type V = ProbeText;

    open spec fn view(&self) -> ProbeText {
        match *self {
            PathProbe::AsGiven(p) => ProbeText::AsGiven(p@),
            PathProbe::InProject(p) => ProbeText::InProject(p@),
            PathProbe::SameName(p) => ProbeText::SameName(p@),
        }
    }
}

/// What places say.
pub open spec fn probe_texts(v: Seq<PathProbe>) -> Seq<ProbeText> {
    v.map_values(|p: PathProbe| p@)
}

/// Where to look for an existing file, in order. The first place that holds one is taken.
pub open spec fn places(proposed: Seq<char>, folder: Option<Seq<char>>) -> Seq<ProbeText> {
    let path = clean_path(proposed);
    let first = seq![ProbeText::AsGiven(path), ProbeText::InProject(path)];
    let below = match folder {
        Some(name) => match below_folder(path, name) {
            Some(rest) => first.push(ProbeText::InProject(rest)),
            None => first,
        },
        None => first,
    };
    below.push(ProbeText::SameName(path))
}

/// Where to look for an existing file, in order. `folder` is the name of the project's folder.
pub fn places_to_look(proposed: &str, folder: Option<&str>) -> (res: Vec<PathProbe>)
    ensures
        probe_texts(res@) == places(
            proposed@,
            match folder {
                Some(name) => Some(name@),
                None => None,
            },
        ),
{
    let path = cleaned_path(proposed);
    let mut out: Vec<PathProbe> = Vec::new();
    out.push(PathProbe::AsGiven(path.as_str().to_owned()));
    out.push(PathProbe::InProject(path.as_str().to_owned()));
    assert(probe_texts(out@) =~= seq![ProbeText::AsGiven(path@), ProbeText::InProject(path@)]);
    match folder {
        Some(name) => match path_below_folder(path.as_str(), name) {
            Some(rest) => {
                let ghost before = probe_texts(out@);
                let ghost text = rest@;
                out.push(PathProbe::InProject(rest));
                assert(probe_texts(out@) =~= before.push(ProbeText::InProject(text)));
            },
            None => {},
        },
        None => {},
    }
    let ghost before = probe_texts(out@);
    let ghost text = path@;
    out.push(PathProbe::SameName(path));
    assert(probe_texts(out@) =~= before.push(ProbeText::SameName(text)));
    out
}

// ---------------------------------------------------------------------------------------------
// Laws
// ---------------------------------------------------------------------------------------------
/// Whether a line stands for itself, and is none of the markers.
pub open spec fn plain_line(line: Seq<char>) -> bool {
    &&& !has_prefix(line, "FILE:"@)
    &&& !has_prefix(line, "<<<<<<< SEARCH"@)
    &&& !has_prefix(line, "======="@)
    &&& !has_prefix(line, ">>>>>>> REPLACE"@)
}

/// Whether all lines stand for themselves.
pub open spec fn plain_lines(ls: Seq<Seq<char>>) -> bool {
    forall|i: int| 0 <= i < ls.len() ==> plain_line(#[trigger] ls[i])
}

/// An edit between its markers.
pub open spec fn marked_block(
    file: Seq<char>,
    search: Seq<Seq<char>>,
    replace: Seq<Seq<char>>,
) -> Seq<Seq<char>> {
    seq!["FILE: "@ + file, "<<<<<<< SEARCH"@] + search + seq!["======="@] + replace + seq![
        ">>>>>>> REPLACE"@,
    ]
}

proof fn lemma_collects(ls: Seq<Seq<char>>, from: int, n: int)
    requires
        0 <= from <= from + n <= ls.len(),
        plain_lines(ls.subrange(from, from + n)),
        block_run(ls, from).in_search || block_run(ls, from).in_replace,
    ensures
        block_run(ls, from).in_search ==> block_run(ls, from + n) == (BlockScan {
            search: block_run(ls, from).search + ls.subrange(from, from + n),
            ..block_run(ls, from)
        }),
        !block_run(ls, from).in_search ==> block_run(ls, from + n) == (BlockScan {
            replace: block_run(ls, from).replace + ls.subrange(from, from + n),
            ..block_run(ls, from)
        }),
    decreases n,
{
    let st = block_run(ls, from);
    if n == 0 {
        assert(st.search + ls.subrange(from, from) =~= st.search);
        assert(st.replace + ls.subrange(from, from) =~= st.replace);
    } else {
        let part = ls.subrange(from, from + n);
        let head = ls.subrange(from, from + n - 1);
        assert forall|i: int| 0 <= i < head.len() implies plain_line(#[trigger] head[i]) by {
            assert(head[i] == part[i]);
        }
        lemma_collects(ls, from, n - 1);
        assert(part[n - 1] == ls[from + n - 1]);
        assert(block_run(ls, from + n) == block_step(
            block_run(ls, from + n - 1),
            ls[from + n - 1],
        ));
        assert((st.search + head).push(ls[from + n - 1]) =~= st.search + part);
        assert((st.replace + head).push(ls[from + n - 1]) =~= st.replace + part);
    }
}

proof fn lemma_markers()
    ensures
        !has_prefix("<<<<<<< SEARCH"@, "FILE:"@),
        has_prefix("<<<<<<< SEARCH"@, "<<<<<<< SEARCH"@),
        !has_prefix("======="@, "FILE:"@),
        !has_prefix("======="@, "<<<<<<< SEARCH"@),
        has_prefix("======="@, "======="@),
        !has_prefix(">>>>>>> REPLACE"@, "FILE:"@),
        !has_prefix(">>>>>>> REPLACE"@, "<<<<<<< SEARCH"@),
        !has_prefix(">>>>>>> REPLACE"@, "======="@),
        has_prefix(">>>>>>> REPLACE"@, ">>>>>>> REPLACE"@),
{
    reveal_strlit("FILE:");
    reveal_strlit("<<<<<<< SEARCH");
    reveal_strlit("=======");
    reveal_strlit(">>>>>>> REPLACE");
    let search = "<<<<<<< SEARCH"@;
    let middle = "======="@;
    let end = ">>>>>>> REPLACE"@;
    assert(search.take(5)[0] != "FILE:"@[0]);
    assert(search.take(14) =~= search);
    assert(middle.take(5)[0] != "FILE:"@[0]);
    assert(middle.take(7) =~= middle);
    assert(end.take(5)[0] != "FILE:"@[0]);
    assert(end.take(14)[0] != search[0]);
    assert(end.take(7)[0] != middle[0]);
    assert(end.take(15) =~= end);
}

proof fn lemma_file_line(file: Seq<char>)
    requires
        file.len() > 0,
        trim(file) == file,
        !has_prefix(" "@ + file, "FILE:"@),
    ensures
        has_prefix("FILE: "@ + file, "FILE:"@),
        trim(strip_prefixes("FILE: "@ + file, "FILE:"@)) == file,
{
    reveal_strlit("FILE:");
    reveal_strlit("FILE: ");
    reveal_strlit(" ");
    let line = "FILE: "@ + file;
    assert(line.take(5) =~= "FILE:"@);
    assert(line.skip(5) =~= " "@ + file);
    assert(strip_prefixes(line, "FILE:"@) == strip_prefixes(" "@ + file, "FILE:"@));
    assert(strip_prefixes(" "@ + file, "FILE:"@) == " "@ + file);
    assert((" "@ + file).drop_first() =~= file);
    assert(crate::text::is_ws(' '));
    assert(crate::strings::trim_start(" "@ + file) == crate::strings::trim_start(file));
}

/// A file, the lines to search for in it, and the lines that take their place.
#[verifier::ext_equal]
pub struct MarkedBlock {
    pub file: Seq<char>,
    pub search: Seq<Seq<char>>,
    pub replace: Seq<Seq<char>>,
}

/// The lines of a block between its markers.
pub open spec fn block_lines(b: MarkedBlock) -> Seq<Seq<char>> {
    marked_block(b.file, b.search, b.replace)
}

/// The edit that a block is. Without lines to search for, it makes a new file.
pub open spec fn block_edit(b: MarkedBlock) -> EditText {
    EditText {
        file_path: b.file,
        mode: if b.search.len() == 0 {
            EditMode::Create
        } else {
            EditMode::Replace
        },
        search: join(b.search, "\n"@),
        replace: join(b.replace, "\n"@),
    }
}

/// Whether a line can stand in a text as it is: it has no line feed, and no carriage return at its
/// end.
pub open spec fn whole_line(line: Seq<char>) -> bool {
    !line.contains('\n') && !(line.len() > 0 && line.last() == '\r')
}

/// Whether all lines can stand in a text as they are.
pub open spec fn whole_lines(ls: Seq<Seq<char>>) -> bool {
    forall|i: int| 0 <= i < ls.len() ==> whole_line(#[trigger] ls[i])
}

/// Whether a block can be written down: its path is one trimmed line, its other lines are no
/// markers, and there is something to put in.
pub open spec fn writable(b: MarkedBlock) -> bool {
    &&& b.file.len() > 0
    &&& trim(b.file) == b.file
    &&& !b.file.contains('\n')
    &&& plain_lines(b.search)
    &&& plain_lines(b.replace)
    &&& whole_lines(b.search)
    &&& whole_lines(b.replace)
    &&& b.replace.len() > 0
}

/// The lines of blocks, one block after the other.
pub open spec fn blocks_lines(blocks: Seq<MarkedBlock>) -> Seq<Seq<char>>
    decreases blocks.len(),
{
    if blocks.len() == 0 {
        Seq::<Seq<char>>::empty()
    } else {
        blocks_lines(blocks.drop_last()) + block_lines(blocks.last())
    }
}

/// The text of lines, each with a line feed behind it.
pub open spec fn text_of_lines(ls: Seq<Seq<char>>) -> Seq<char>
    decreases ls.len(),
{
    if ls.len() == 0 {
        Seq::<char>::empty()
    } else {
        text_of_lines(ls.drop_last()) + ls.last() + "\n"@
    }
}

proof fn lemma_block_read(ls: Seq<Seq<char>>, from: int, b: MarkedBlock)
    requires
        writable(b),
        0 <= from,
        from + block_lines(b).len() <= ls.len(),
        ls.subrange(from, from + block_lines(b).len()) == block_lines(b),
    ensures
        block_run(ls, from + block_lines(b).len()).blocks == block_run(ls, from).blocks.push(
            block_edit(b),
        ),
{
    let part = block_lines(b);
    let s = b.search.len() as int;
    let r = b.replace.len() as int;
    assert(!has_prefix(" "@ + b.file, "FILE:"@)) by {
        reveal_strlit("FILE:");
        reveal_strlit(" ");
        assert((" "@ + b.file)[0] == ' ');
        if has_prefix(" "@ + b.file, "FILE:"@) {
            assert((" "@ + b.file).take(5)[0] == "FILE:"@[0]);
        }
    }
    lemma_file_line(b.file);
    lemma_markers();
    assert(part.len() == 4 + s + r);
    assert(ls[from] == part[0] && part[0] == "FILE: "@ + b.file);
    assert(ls[from + 1] == part[1] && part[1] == "<<<<<<< SEARCH"@);
    let st0 = block_run(ls, from);
    assert(block_run(ls, from + 1) == block_step(st0, ls[from]));
    assert(block_run(ls, from + 2) == block_step(block_run(ls, from + 1), ls[from + 1]));
    assert(ls.subrange(from + 2, from + 2 + s) =~= b.search) by {
        assert forall|i: int| 0 <= i < s implies ls[from + 2 + i] == b.search[i] by {
            assert(part[2 + i] == b.search[i]);
        }
    }
    lemma_collects(ls, from + 2, s);
    assert(Seq::<Seq<char>>::empty() + b.search =~= b.search);
    assert(ls[from + 2 + s] == part[2 + s] && part[2 + s] == "======="@);
    assert(block_run(ls, from + 3 + s) == block_step(block_run(ls, from + 2 + s), ls[from + 2 + s]));
    assert(ls.subrange(from + 3 + s, from + 3 + s + r) =~= b.replace) by {
        assert forall|i: int| 0 <= i < r implies ls[from + 3 + s + i] == b.replace[i] by {
            assert(part[3 + s + i] == b.replace[i]);
        }
    }
    lemma_collects(ls, from + 3 + s, r);
    assert(Seq::<Seq<char>>::empty() + b.replace =~= b.replace);
    assert(ls[from + 3 + s + r] == part[3 + s + r] && part[3 + s + r] == ">>>>>>> REPLACE"@);
    let last = block_run(ls, from + 3 + s + r);
    assert(block_run(ls, from + 4 + s + r) == block_step(last, ls[from + 3 + s + r]));
    assert(finished_block(last) == block_edit(b));
}

proof fn lemma_run_of_prefix(a: Seq<Seq<char>>, b: Seq<Seq<char>>, n: int)
    requires
        0 <= n <= a.len(),
    ensures
        block_run(a + b, n) == block_run(a, n),
    decreases n,
{
    if n > 0 {
        lemma_run_of_prefix(a, b, n - 1);
        assert((a + b)[n - 1] == a[n - 1]);
    }
}

proof fn lemma_blocks_read(blocks: Seq<MarkedBlock>)
    requires
        forall|i: int| 0 <= i < blocks.len() ==> writable(#[trigger] blocks[i]),
    ensures
        marked_edits(blocks_lines(blocks)) == blocks.map_values(|b: MarkedBlock| block_edit(b)),
    decreases blocks.len(),
{
    let edits = blocks.map_values(|b: MarkedBlock| block_edit(b));
    if blocks.len() == 0 {
        assert(edits =~= Seq::<EditText>::empty());
    } else {
        let head = blocks.drop_last();
        let b = blocks.last();
        assert(writable(blocks[blocks.len() - 1]));
        assert forall|i: int| 0 <= i < head.len() implies writable(#[trigger] head[i]) by {
            assert(head[i] == blocks[i]);
        }
        lemma_blocks_read(head);
        let first = blocks_lines(head);
        let ls = first + block_lines(b);
        let n = first.len() as int;
        lemma_run_of_prefix(first, block_lines(b), n);
        assert(ls.subrange(n, n + block_lines(b).len()) =~= block_lines(b));
        lemma_block_read(ls, n, b);
        assert(edits =~= head.map_values(|b: MarkedBlock| block_edit(b)).push(block_edit(b)));
    }
}

proof fn lemma_lines_of_text(ls: Seq<Seq<char>>)
    requires
        whole_lines(ls),
    ensures
        pieces(text_of_lines(ls), Separator::Newline) == ls.push(Seq::<char>::empty()),
        lines(text_of_lines(ls)) == ls,
    decreases ls.len(),
{
    let none = Seq::<char>::empty();
    if ls.len() == 0 {
        assert(ls.push(none) =~= seq![none]);
    } else {
        reveal_strlit("\n");
        let head = ls.drop_last();
        let last = ls.last();
        assert(whole_line(ls[ls.len() - 1]));
        assert forall|i: int| 0 <= i < head.len() implies whole_line(#[trigger] head[i]) by {
            assert(head[i] == ls[i]);
        }
        lemma_lines_of_text(head);
        let before = text_of_lines(head);
        assert forall|k: int| 0 <= k < last.len() implies !crate::strings::separates(
            Separator::Newline,
            #[trigger] last[k],
        ) by {
            assert(last.contains(last[k]));
        }
        lemma_pieces_extended(before, last, Separator::Newline);
        assert(none + last =~= last);
        assert(head.push(none).drop_last() =~= head);
        assert(head.push(last) =~= ls);
        assert((before + last + "\n"@).drop_last() =~= before + last);
        assert((before + last + "\n"@).last() == '\n');
    }
    let parts = ls.push(none);
    assert(parts.drop_last() =~= ls);
    assert(ls.map_values(|p: Seq<char>| crate::strings::strip_cr(p)) =~= ls) by {
        assert forall|i: int| 0 <= i < ls.len() implies crate::strings::strip_cr(#[trigger] ls[i])
            == ls[i] by {
            assert(whole_line(ls[i]));
        }
    }
}

proof fn lemma_trim_end_last(s: Seq<char>)
    ensures
        crate::strings::trim_end(s).len() > 0 ==> !crate::text::is_ws(
            crate::strings::trim_end(s).last(),
        ),
    decreases s.len(),
{
    if s.len() > 0 && crate::text::is_ws(s.last()) {
        lemma_trim_end_last(s.drop_last());
    }
}

proof fn lemma_block_lines_whole(b: MarkedBlock)
    requires
        writable(b),
    ensures
        whole_lines(block_lines(b)),
{
    reveal_strlit("FILE: ");
    reveal_strlit("<<<<<<< SEARCH");
    reveal_strlit("=======");
    reveal_strlit(">>>>>>> REPLACE");
    let part = block_lines(b);
    let s = b.search.len() as int;
    let r = b.replace.len() as int;
    lemma_trim_end_last(crate::strings::trim_start(b.file));
    assert forall|i: int| 0 <= i < part.len() implies whole_line(#[trigger] part[i]) by {
        if i == 0 {
            let line = "FILE: "@ + b.file;
            assert(part[0] == line);
            assert(line.last() == b.file.last());
            if line.contains('\n') {
                let k = choose|k: int| 0 <= k < line.len() && line[k] == '\n';
                assert(b.file[k - 6] == '\n');
            }
        } else if 2 <= i < 2 + s {
            assert(part[i] == b.search[i - 2]);
        } else if 3 + s <= i < 3 + s + r {
            assert(part[i] == b.replace[i - 3 - s]);
        }
    }
}

proof fn lemma_blocks_lines_whole(blocks: Seq<MarkedBlock>)
    requires
        forall|i: int| 0 <= i < blocks.len() ==> writable(#[trigger] blocks[i]),
    ensures
        whole_lines(blocks_lines(blocks)),
    decreases blocks.len(),
{
    if blocks.len() > 0 {
        let head = blocks.drop_last();
        assert forall|i: int| 0 <= i < head.len() implies writable(#[trigger] head[i]) by {
            assert(head[i] == blocks[i]);
        }
        lemma_blocks_lines_whole(head);
        assert(writable(blocks[blocks.len() - 1]));
        lemma_block_lines_whole(blocks.last());
        let first = blocks_lines(head);
        let all = first + block_lines(blocks.last());
        assert forall|i: int| 0 <= i < all.len() implies whole_line(#[trigger] all[i]) by {
            if i < first.len() {
                assert(all[i] == first[i]);
            } else {
                assert(all[i] == block_lines(blocks.last())[i - first.len()]);
            }
        }
    }
}

/// Edits that a model writes between the markers are read back as they were written, any number of
/// them in one text: in order, each with its path, its search lines and its new lines. One without
/// search lines makes a new file.
pub proof fn law_marked_blocks_read_back(blocks: Seq<MarkedBlock>)
    requires
        forall|i: int| 0 <= i < blocks.len() ==> writable(#[trigger] blocks[i]),
    ensures
        marked_edits(lines(text_of_lines(blocks_lines(blocks)))) == blocks.map_values(
            |b: MarkedBlock| block_edit(b),
        ),
{
    lemma_blocks_lines_whole(blocks);
    lemma_lines_of_text(blocks_lines(blocks));
    lemma_blocks_read(blocks);
}

/// Edits that come as JSON are complete: each has new text, and a replacement has text to search
/// for.
pub proof fn law_json_edits_complete(j: Json, i: int)
    requires
        0 <= i < edits_of(j).len(),
    ensures
        edits_of(j)[i].replace.len() > 0,
        edits_of(j)[i].mode == EditMode::Replace ==> edits_of(j)[i].search.len() > 0,
{
    match j {
        Json::Array(items) => lemma_edits_complete(items, items.len() as int, i),
        _ => {},
    }
}

proof fn lemma_edits_complete(items: Seq<Json>, n: int, i: int)
    requires
        0 <= i < edits_up_to(items, n).len(),
    ensures
        edits_up_to(items, n)[i].replace.len() > 0,
        edits_up_to(items, n)[i].mode == EditMode::Replace ==> edits_up_to(items, n)[i].search.len()
            > 0,
    decreases n,
{
    if n > 0 && i < edits_up_to(items, n - 1).len() {
        lemma_edits_complete(items, n - 1, i);
    }
}

/// A replacement changes one place and leaves the rest as it was: the text before and after the
/// first occurrence of what it searches for.
pub proof fn law_replace_changes_one_place(s: Seq<char>, from: Seq<char>, to: Seq<char>) -> (at:
    int)
    requires
        occurs(s, from),
    ensures
        crate::strings::occurs_at(s, from, at),
        forall|i: int| 0 <= i < at ==> !crate::strings::occurs_at(s, from, i),
        replace_first(s, from, to) == s.take(at) + to + s.skip(at + from.len()),
    decreases s.len(),
{
    if has_prefix(s, from) {
        assert(s.subrange(0, from.len() as int) =~= s.take(from.len() as int));
        assert(s.take(0) + to + s.skip(from.len() as int) =~= to + s.skip(from.len() as int));
        0
    } else {
        let i = choose|i: int| crate::strings::occurs_at(s, from, i);
        assert(s.len() > 0 && i > 0) by {
            if i == 0 {
                assert(s.subrange(0, from.len() as int) =~= s.take(from.len() as int));
            }
        }
        let tail = s.drop_first();
        assert(tail.subrange(i - 1, i - 1 + from.len()) =~= s.subrange(i, i + from.len()));
        assert(crate::strings::occurs_at(tail, from, i - 1));
        let k = law_replace_changes_one_place(tail, from, to);
        let at = k + 1;
        assert(tail.subrange(k, k + from.len()) =~= s.subrange(at, at + from.len()));
        assert forall|m: int| 0 <= m < at implies !crate::strings::occurs_at(s, from, m) by {
            if m == 0 {
                if crate::strings::occurs_at(s, from, 0) {
                    assert(s.subrange(0, from.len() as int) =~= s.take(from.len() as int));
                }
            } else if crate::strings::occurs_at(s, from, m) {
                assert(tail.subrange(m - 1, m - 1 + from.len()) =~= s.subrange(m, m + from.len()));
                assert(crate::strings::occurs_at(tail, from, m - 1));
            }
        }
        assert(seq![s[0]] + (tail.take(k) + to + tail.skip(k + from.len())) =~= s.take(at) + to
            + s.skip(at + from.len()));
        at
    }
}

/// Whether every line feed has a carriage return before it.
pub open spec fn windows_lines(s: Seq<char>) -> bool {
    forall|i: int| 0 <= i < s.len() && #[trigger] s[i] == '\n' ==> i > 0 && s[i - 1] == '\r'
}

proof fn lemma_windows_lines(s: Seq<char>)
    ensures
        windows_lines(replace_all(s, "\n"@, "\r\n"@)),
    decreases s.len(),
{
    reveal_strlit("\n");
    reveal_strlit("\r\n");
    let from = "\n"@;
    let to = "\r\n"@;
    if s.len() > 0 {
        if has_prefix(s, from) {
            let rest = replace_all(s.skip(1), from, to);
            lemma_windows_lines(s.skip(1));
            assert forall|i: int|
                0 <= i < (to + rest).len() && #[trigger] (to + rest)[i] == '\n' implies i > 0 && (to
                + rest)[i - 1] == '\r' by {
                if i >= 2 {
                    assert(rest[i - 2] == '\n');
                }
            }
        } else {
            let rest = replace_all(s.drop_first(), from, to);
            lemma_windows_lines(s.drop_first());
            assert(s[0] != '\n') by {
                if s[0] == '\n' {
                    assert(s.take(1) =~= from);
                }
            }
            let all = seq![s[0]] + rest;
            assert forall|i: int| 0 <= i < all.len() && #[trigger] all[i] == '\n' implies i > 0
                && all[i - 1] == '\r' by {
                assert(rest[i - 1] == '\n');
            }
        }
    }
}

/// A file with Windows line ends keeps them: whatever an edit adds to it ends its lines the same
/// way.
pub proof fn law_line_ends_kept(edit: EditText, content: Seq<char>)
    requires
        occurs(content, "\r\n"@),
        edit.mode != EditMode::Create,
        edited_file(edit, content) is Some,
    ensures
        windows_lines(edited_file(edit, content)->Some_0),
{
    lemma_windows_lines(
        replace_first(unix_lines(content), unix_lines(edit.search), unix_lines(edit.replace)),
    );
    lemma_windows_lines(
        unix_lines(content) + (if content.len() == 0 || content.last() == '\n' {
            ""@
        } else {
            "\n"@
        }) + unix_lines(edit.replace) + "\n"@,
    );
}

proof fn lemma_line_feeds_replaced(a: Seq<char>, b: Seq<char>)
    ensures
        replace_all(a + b, "\n"@, "\r\n"@) == replace_all(a, "\n"@, "\r\n"@) + replace_all(
            b,
            "\n"@,
            "\r\n"@,
        ),
    decreases a.len(),
{
    reveal_strlit("\n");
    let from = "\n"@;
    let to = "\r\n"@;
    if a.len() == 0 {
        assert(a + b =~= b);
        assert(a + replace_all(b, from, to) =~= replace_all(b, from, to));
    } else {
        let rest = a.drop_first();
        lemma_line_feeds_replaced(rest, b);
        assert((a + b).drop_first() =~= rest + b);
        assert((a + b).skip(1) =~= rest + b);
        assert(a.skip(1) =~= rest);
        assert((a + b).take(1) =~= a.take(1));
        let x = replace_all(rest, from, to);
        let y = replace_all(b, from, to);
        assert(to + (x + y) =~= (to + x) + y);
        assert(seq![a[0]] + (x + y) =~= (seq![a[0]] + x) + y);
    }
}

proof fn lemma_one_replaced(c: char)
    ensures
        replace_all(seq![c], "\n"@, "\r\n"@) == if c == '\n' {
            "\r\n"@
        } else {
            seq![c]
        },
        "\n"@ == seq!['\n'],
{
    reveal_strlit("\n");
    reveal_with_fuel(replace_all, 2);
    let one = seq![c];
    let none = Seq::<char>::empty();
    assert("\n"@ =~= seq!['\n']);
    assert(one.take(1) =~= one);
    assert(one.skip(1) =~= none);
    assert(one.drop_first() =~= none);
    assert(has_prefix(one, "\n"@) == (c == '\n')) by {
        assert(one[0] == c && seq!['\n'][0] == '\n');
    }
    assert(replace_all(none, "\n"@, "\r\n"@) == none);
    assert("\r\n"@ + none =~= "\r\n"@);
    assert(one + none =~= one);
}

proof fn lemma_windows_lines_restored(s: Seq<char>)
    requires
        windows_lines(s),
    ensures
        replace_all(unix_lines(s), "\n"@, "\r\n"@) == s,
    decreases s.len(),
{
    reveal_strlit("\n");
    reveal_strlit("\r\n");
    let lf = "\n"@;
    let crlf = "\r\n"@;
    if s.len() > 0 {
        if has_prefix(s, crlf) {
            let rest = s.skip(2);
            assert(s.take(2)[0] == s[0] && s.take(2)[1] == s[1]);
            assert forall|i: int| 0 <= i < rest.len() && #[trigger] rest[i] == '\n' implies i > 0
                && rest[i - 1] == '\r' by {
                assert(s[i + 2] == '\n');
            }
            lemma_windows_lines_restored(rest);
            lemma_line_feeds_replaced(lf, unix_lines(rest));
            lemma_one_replaced('\n');
            assert(crlf + rest =~= s);
        } else {
            let rest = s.drop_first();
            let c = s[0];
            assert(c != '\n');
            assert forall|i: int| 0 <= i < rest.len() && #[trigger] rest[i] == '\n' implies i > 0
                && rest[i - 1] == '\r' by {
                assert(s[i + 1] == '\n');
                if i == 0 {
                    assert(s.take(2) =~= crlf);
                }
            }
            lemma_windows_lines_restored(rest);
            let one = seq![c];
            lemma_line_feeds_replaced(one, unix_lines(rest));
            lemma_one_replaced(c);
            assert(one + rest =~= s);
        }
    }
}

/// Appending to a file whose line ends are all of one kind keeps all that the file held, and the
/// text that was added ends with a line feed.
pub proof fn law_append_keeps_content(content: Seq<char>, replace: Seq<char>)
    requires
        !occurs(content, "\r\n"@) || windows_lines(content),
    ensures
        has_prefix(appended_file(content, replace), content),
        appended_file(content, replace).last() == '\n',
{
    reveal_strlit("\n");
    reveal_strlit("\r\n");
    let result = appended_file(content, replace);
    if occurs(content, "\r\n"@) {
        let sep = if content.len() == 0 || content.last() == '\n' {
            ""@
        } else {
            "\n"@
        };
        let normal = unix_lines(content);
        let added = sep + unix_lines(replace);
        lemma_windows_lines_restored(content);
        assert(normal + sep + unix_lines(replace) + "\n"@ =~= normal + (added + "\n"@));
        lemma_line_feeds_replaced(normal, added + "\n"@);
        lemma_line_feeds_replaced(added, "\n"@);
        lemma_one_replaced('\n');
    } else {
        lemma_nothing_to_replace(content, "\r\n"@, "\n"@);
    }
    assert(result.take(content.len() as int) =~= content);
}

/// An edit that was proposed is written when nothing changed in between, and one that was not is
/// passed over. A file that an append could not read is the exception: such an edit is proposed
/// without reading.
pub proof fn law_proposed_edit_is_written(edit: EditText, file: LookupText)
    requires
        edit.mode == EditMode::Append ==> file.content is Ok,
    ensures
        (skip_note(edit, file) is None) == (edit_action(edit, file) is Write),
{
}

proof fn lemma_char_replaced(s: Seq<char>, from: Seq<char>, to: Seq<char>, c: char)
    requires
        from == seq![c],
        !to.contains(c),
    ensures
        !replace_all(s, from, to).contains(c),
    decreases s.len(),
{
    if s.len() > 0 {
        if has_prefix(s, from) {
            lemma_char_replaced(s.skip(1), from, to, c);
        } else {
            lemma_char_replaced(s.drop_first(), from, to, c);
            assert(s[0] != c) by {
                if s[0] == c {
                    assert(s.take(1) =~= from);
                }
            }
        }
    }
}

/// A cleaned path has forward slashes only.
pub proof fn law_clean_path_has_no_backslash(path: Seq<char>)
    ensures
        !clean_path(path).contains('\\'),
{
    reveal_strlit("\\");
    reveal_strlit("/");
    assert("\\"@ =~= seq!['\\']);
    lemma_char_replaced(strip_prefixes(path, "\\\\?\\"@), "\\"@, "/"@, '\\');
}

/// Without carriage returns there are no Windows line ends to write as line feeds.
proof fn lemma_unix_lines_stay(s: Seq<char>)
    requires
        !s.contains('\r'),
    ensures
        unix_lines(s) == s,
        !occurs(s, "\r\n"@),
{
    reveal_strlit("\r\n");
    if occurs(s, "\r\n"@) {
        let i = choose|i: int| crate::strings::occurs_at(s, "\r\n"@, i);
        assert(s.subrange(i, i + 2)[0] == '\r');
        assert(s[i] == '\r');
    }
    lemma_nothing_to_replace(s, "\r\n"@, "\n"@);
}

/// A replacement puts the new text, character for character, where the search text stood first, and
/// keeps the file before and after it as it was. Where the search text does not stand in the file,
/// the edit cannot be made.
pub proof fn law_replacement_is_exact(edit: EditText, content: Seq<char>) -> (at: int)
    requires
        edit.mode == EditMode::Replace,
        !content.contains('\r'),
        !edit.search.contains('\r'),
        !edit.replace.contains('\r'),
    ensures
        edited_file(edit, content) is Some <==> exists|i: int|
            0 <= i && i + edit.search.len() <= content.len() && #[trigger] content.subrange(
                i,
                i + edit.search.len(),
            ) == edit.search,
        edited_file(edit, content) matches Some(after) ==> {
            &&& 0 <= at
            &&& at + edit.search.len() <= content.len()
            &&& content.subrange(at, at + edit.search.len()) == edit.search
            &&& forall|i: int|
                0 <= i < at ==> #[trigger] content.subrange(i, i + edit.search.len())
                    != edit.search
            &&& after == content.take(at) + edit.replace + content.skip(at + edit.search.len())
        },
{
    lemma_unix_lines_stay(content);
    lemma_unix_lines_stay(edit.search);
    lemma_unix_lines_stay(edit.replace);
    if occurs(content, edit.search) {
        let k = choose|k: int| crate::strings::occurs_at(content, edit.search, k);
        assert(content.subrange(k, k + edit.search.len()) == edit.search);
        let at = law_replace_changes_one_place(content, edit.search, edit.replace);
        assert forall|i: int| 0 <= i < at implies #[trigger] content.subrange(
            i,
            i + edit.search.len(),
        ) != edit.search by {
            assert(!crate::strings::occurs_at(content, edit.search, i));
        }
        at
    } else {
        assert forall|i: int|
            0 <= i && i + edit.search.len() <= content.len() implies #[trigger] content.subrange(
            i,
            i + edit.search.len(),
        ) != edit.search by {
            assert(!crate::strings::occurs_at(content, edit.search, i));
        }
        0
    }
}

/// What is appended stands behind what the file held, on a line of its own, character for
/// character, and ends with a line feed.
pub proof fn law_append_is_exact(edit: EditText, content: Seq<char>)
    requires
        edit.mode == EditMode::Append,
        !content.contains('\r'),
        !edit.replace.contains('\r'),
    ensures
        content.len() == 0 || content.last() == '\n' ==> edited_file(edit, content) == Some(
            content + edit.replace + seq!['\n'],
        ),
        content.len() > 0 && content.last() != '\n' ==> edited_file(edit, content) == Some(
            content + seq!['\n'] + edit.replace + seq!['\n'],
        ),
{
    lemma_unix_lines_stay(content);
    lemma_unix_lines_stay(edit.replace);
    reveal_strlit("");
    lemma_one_replaced('\n');
    assert(content + ""@ =~= content);
}

/// The text with Windows line ends.
pub open spec fn with_windows_lines(s: Seq<char>) -> Seq<char> {
    replace_all(s, "\n"@, "\r\n"@)
}

/// Windows line ends and line feeds can be told from each other again.
proof fn lemma_windows_lines_undone(s: Seq<char>)
    requires
        !s.contains('\r'),
    ensures
        unix_lines(with_windows_lines(s)) == s,
    decreases s.len(),
{
    reveal_strlit("\n");
    reveal_strlit("\r\n");
    let lf = "\n"@;
    let crlf = "\r\n"@;
    if s.len() > 0 {
        let rest = s.drop_first();
        assert(!rest.contains('\r'));
        assert(s.skip(1) =~= rest);
        lemma_windows_lines_undone(rest);
        let win = with_windows_lines(rest);
        if s[0] == '\n' {
            assert(s.take(1) =~= lf);
            let all = crlf + win;
            assert(all.take(2) =~= crlf);
            assert(all.skip(2) =~= win);
            assert(unix_lines(all) == lf + unix_lines(win));
            assert(lf + rest =~= s);
        } else {
            assert(s.take(1)[0] != lf[0]);
            let all = seq![s[0]] + win;
            assert(s[0] != '\r');
            assert(!has_prefix(all, crlf)) by {
                if has_prefix(all, crlf) {
                    assert(all.take(2)[0] == all[0]);
                }
            }
            assert(all.drop_first() =~= win);
            assert(seq![s[0]] + rest =~= s);
        }
    }
}

/// A line feed becomes a Windows line end.
proof fn lemma_windows_line_there(s: Seq<char>)
    requires
        s.contains('\n'),
    ensures
        occurs(with_windows_lines(s), "\r\n"@),
{
    let i = choose|i: int| 0 <= i < s.len() && s[i] == '\n';
    let head = s.take(i);
    let tail = s.skip(i + 1);
    assert(s =~= head + (seq!['\n'] + tail));
    lemma_line_feeds_replaced(head, seq!['\n'] + tail);
    lemma_line_feeds_replaced(seq!['\n'], tail);
    lemma_one_replaced('\n');
    lemma_occurs_whole("\r\n"@);
    lemma_occurs_between(with_windows_lines(head), "\r\n"@, with_windows_lines(tail), "\r\n"@);
    assert(with_windows_lines(head) + ("\r\n"@ + with_windows_lines(tail)) =~= with_windows_lines(
        head,
    ) + "\r\n"@ + with_windows_lines(tail));
}

/// The line ends of a file make no difference to an edit: a file with Windows line ends becomes
/// what the same file with line feeds becomes, with Windows line ends.
pub proof fn law_windows_files_are_edited_alike(edit: EditText, content: Seq<char>)
    requires
        edit.mode != EditMode::Create,
        !content.contains('\r'),
        content.contains('\n'),
    ensures
        edited_file(edit, content) is None <==> edited_file(edit, with_windows_lines(content))
            is None,
        edited_file(edit, content) matches Some(after) ==> edited_file(
            edit,
            with_windows_lines(content),
        ) == Some(with_windows_lines(after)),
{
    reveal_strlit("\n");
    reveal_strlit("\r\n");
    let win = with_windows_lines(content);
    lemma_windows_lines_undone(content);
    lemma_windows_line_there(content);
    lemma_unix_lines_stay(content);
    let last = content.last();
    let head = content.drop_last();
    assert(content =~= head + seq![last]);
    lemma_line_feeds_replaced(head, seq![last]);
    lemma_one_replaced(last);
    assert((win.last() == '\n') == (last == '\n'));
}

/// The line ends of an edit make no difference either: search text and new text with Windows line
/// ends do what they do with line feeds.
pub proof fn law_windows_edits_work_alike(edit: EditText, content: Seq<char>)
    requires
        !edit.search.contains('\r'),
        !edit.replace.contains('\r'),
    ensures
        edited_file(
            EditText {
                search: with_windows_lines(edit.search),
                replace: with_windows_lines(edit.replace),
                ..edit
            },
            content,
        ) == edited_file(edit, content),
{
    lemma_windows_lines_undone(edit.search);
    lemma_windows_lines_undone(edit.replace);
    lemma_unix_lines_stay(edit.search);
    lemma_unix_lines_stay(edit.replace);
}

/// A new file holds the new text, character for character, and is made only where the path is free;
/// an edit of a file that is not there is passed over.
pub proof fn law_new_file_holds_the_text(edit: EditText, file: LookupText)
    requires
        !edit.replace.contains('\r'),
    ensures
        edit.mode == EditMode::Create && file.path is Some ==> edit_action(edit, file)
            == ActionText::Write(edit.replace) && skip_note(edit, file) is None,
        file.path is None ==> edit_action(edit, file) is Skip && skip_note(edit, file) is Some,
{
    lemma_unix_lines_stay(edit.replace);
}

/// What is written for an edit of a file is what the edit makes of the content that was read, and
/// nothing is written where it makes nothing of it, or where the file could not be read.
pub proof fn law_written_is_the_edited_file(edit: EditText, file: LookupText)
    requires
        edit.mode != EditMode::Create,
        file.path is Some,
    ensures
        file.content matches Ok(content) ==> (edited_file(edit, content) matches Some(after)
            ==> edit_action(edit, file) == ActionText::Write(after)),
        file.content matches Ok(content) ==> (edited_file(edit, content) is None ==> edit_action(
            edit,
            file,
        ) is Skip),
        file.content is Err ==> edit_action(edit, file) is Skip,
{
}

/// A replacement is proposed exactly if its file is there, can be read and holds the search text;
/// an append exactly if its file is there.
pub proof fn law_edit_is_proposed_if_it_can_be_made(edit: EditText, file: LookupText)
    requires
        !edit.search.contains('\r'),
        file.content matches Ok(content) ==> !content.contains('\r'),
    ensures
        edit.mode == EditMode::Replace ==> (skip_note(edit, file) is None <==> file.path is Some
            && (file.content matches Ok(content) && occurs(content, edit.search))),
        edit.mode != EditMode::Replace ==> (skip_note(edit, file) is None <==> file.path is Some),
{
    lemma_unix_lines_stay(edit.search);
    if let Ok(content) = file.content {
        lemma_unix_lines_stay(content);
    }
}

/// The note on an edit that is not proposed names its file.
pub proof fn law_note_names_the_file(edit: EditText, file: LookupText)
    ensures
        skip_note(edit, file) matches Some(note) ==> (file.path is None ==> occurs(
            note,
            edit.file_path,
        )),
        skip_note(edit, file) matches Some(note) ==> (file.path matches Some(path) ==> occurs(
            note,
            path,
        )),
{
    lemma_occurs_whole(edit.file_path);
    match file.path {
        None => {
            lemma_occurs_between(
                "cannot create "@,
                edit.file_path,
                ": a file already exists at that path (use replace/append instead)"@,
                edit.file_path,
            );
            lemma_occurs_between("file not found: "@, edit.file_path, ""@, edit.file_path);
        },
        Some(path) => {
            lemma_occurs_whole(path);
            lemma_occurs_between("could not read "@, path, ""@, path);
            lemma_occurs_between("SEARCH text not found in "@, path, ""@, path);
        },
    }
}

/// Whether an item of a list says this edit: its members are the path, the new text, the text to
/// search for and the mode of the edit.
pub open spec fn says_edit(item: Json, edit: EditText) -> bool {
    &&& lists(item, "file_path"@, Json::Text(edit.file_path))
    &&& lists(item, "replace"@, Json::Text(edit.replace))
    &&& lists(item, "search"@, Json::Text(edit.search)) || (lists_no_text(item, "search"@)
        && edit.search.len() == 0)
    &&& match edit.mode {
        EditMode::Append => lists(item, "mode"@, Json::Text("append"@)),
        EditMode::Create => lists(item, "mode"@, Json::Text("create"@)),
        EditMode::Replace => !lists(item, "mode"@, Json::Text("append"@)) && !lists(
            item,
            "mode"@,
            Json::Text("create"@),
        ),
    }
    &&& edit.replace.len() > 0
    &&& edit.mode == EditMode::Replace ==> edit.search.len() > 0
}

/// The edit that is read from an item has the path, the texts and the mode of the item's members,
/// and an item without what an edit needs gives none.
pub proof fn law_edit_is_what_its_item_says(item: Json, edit: EditText)
    requires
        proper(item),
    ensures
        says_edit(item, edit) <==> edit_of(item) == Some(edit),
{
    reveal_strlit("append");
    reveal_strlit("create");
    assert("append"@[0] != "create"@[0]);
    law_text_members_are_found(item, "file_path"@, edit.file_path);
    law_text_members_are_found(item, "replace"@, edit.replace);
    law_text_members_are_found(item, "search"@, edit.search);
    law_text_members_are_found(item, "mode"@, "append"@);
    law_text_members_are_found(item, "mode"@, "create"@);
    if edit_of(item) == Some(edit) && lists_no_text(item, "replace"@) {
        assert(edit.replace.len() == 0);
    }
    if says_edit(item, edit) && lists_no_text(item, "search"@) {
        assert(edit.search =~= Seq::<char>::empty());
    }
}

/// An item behind others adds its edit at the end, and where it says none, it adds nothing.
pub proof fn law_items_are_read_in_order(items: Seq<Json>, item: Json, edit: EditText)
    requires
        proper(item),
    ensures
        edits_of(Json::Array(Seq::<Json>::empty())).len() == 0,
        says_edit(item, edit) ==> edits_of(Json::Array(items.push(item))) == edits_of(
            Json::Array(items),
        ).push(edit),
        (forall|e: EditText| !says_edit(item, e)) ==> edits_of(Json::Array(items.push(item)))
            == edits_of(Json::Array(items)),
{
    law_edit_is_what_its_item_says(item, edit);
    if let Some(e) = edit_of(item) {
        law_edit_is_what_its_item_says(item, e);
    }
    lemma_same_items(items.push(item), items, items.len() as int);
}

/// The edits among the first items depend on those items alone.
proof fn lemma_same_items(a: Seq<Json>, b: Seq<Json>, n: int)
    requires
        0 <= n <= a.len(),
        n <= b.len(),
        forall|i: int| 0 <= i < n ==> #[trigger] a[i] == b[i],
    ensures
        edits_up_to(a, n) == edits_up_to(b, n),
    decreases n,
{
    if n > 0 {
        lemma_same_items(a, b, n - 1);
    }
}

/// A list whose items each say an edit gives just these edits, in the order of the items.
pub proof fn law_complete_items_are_all_read(items: Seq<Json>, edits: Seq<EditText>)
    requires
        items.len() == edits.len(),
        forall|i: int|
            #![trigger items[i]]
            #![trigger edits[i]]
            0 <= i < items.len() ==> proper(items[i]) && says_edit(items[i], edits[i]),
    ensures
        edits_of(Json::Array(items)) == edits,
    decreases items.len(),
{
    if items.len() > 0 {
        let head = items.drop_last();
        let before = edits.drop_last();
        assert forall|i: int| 0 <= i < head.len() implies proper(#[trigger] head[i]) && says_edit(
            head[i],
            before[i],
        ) by {
            assert(head[i] == items[i] && before[i] == edits[i]);
        }
        law_complete_items_are_all_read(head, before);
        assert(proper(items.last()) && says_edit(items.last(), edits.last()));
        law_items_are_read_in_order(head, items.last(), edits.last());
        assert(head.push(items.last()) =~= items);
        assert(before.push(edits.last()) =~= edits);
    }
}

/// How an edit is shown: each line that goes, in order, and behind them each line that comes. For
/// an edit that takes nothing out, one line says so in front.
pub proof fn law_proposal_shows_the_edit(edit: EditText, i: int)
    requires
        0 <= i < lines(edit.replace).len(),
    ensures
        proposal(edit).len() == lines(edit.replace).len() + (if edit.mode == EditMode::Replace {
            lines(edit.search).len() as int
        } else {
            1
        }),
        proposal(edit)[proposal(edit).len() - lines(edit.replace).len() + i] == (
            ProposalKind::Added,
            "+ "@ + lines(edit.replace)[i],
        ),
        edit.mode == EditMode::Replace ==> forall|k: int|
            0 <= k < lines(edit.search).len() ==> #[trigger] proposal(edit)[k] == (
                ProposalKind::Removed,
                "- "@ + lines(edit.search)[k],
            ),
        edit.mode != EditMode::Replace ==> proposal(edit)[0].0 == ProposalKind::Note,
{
}

/// The report on edits that were written tells how many, and every edit that was passed over; it
/// counts as written if there was one at least.
pub proof fn law_report_tells_what_was_skipped(n: usize, notes: Seq<Seq<char>>, i: int)
    requires
        0 <= i < notes.len(),
    ensures
        occurs(edit_report(EditResult::Applied(n), notes).0, notes[i]),
        has_prefix(
            edit_report(EditResult::Applied(n), notes).0,
            "Applied "@ + decimal(n as nat) + " edit(s) to disk."@,
        ),
        edit_report(EditResult::Applied(n), notes).1 == (n > 0),
{
    let head = "Applied "@ + decimal(n as nat) + " edit(s) to disk. Skipped: "@;
    lemma_join_shows_parts(notes, "; "@, i);
    lemma_occurs_between(head, join(notes, "; "@), seq![], notes[i]);
    let start = "Applied "@ + decimal(n as nat) + " edit(s) to disk."@;
    reveal_strlit(" edit(s) to disk. Skipped: ");
    reveal_strlit(" edit(s) to disk.");
    assert(edit_report(EditResult::Applied(n), notes).0.take(start.len() as int) =~= start);
}

/// A path without backslashes is taken as it stands, and what is left of one below the project's
/// folder is what stands behind the folder's name.
pub proof fn law_plain_path_is_kept(path: Seq<char>, folder: Seq<char>, rest: Seq<char>)
    requires
        !path.contains('\\'),
    ensures
        clean_path(path) == path,
        places(path, None) == seq![
            ProbeText::AsGiven(path),
            ProbeText::InProject(path),
            ProbeText::SameName(path),
        ],
        path == folder + "/"@ + rest ==> places(path, Some(folder)) == seq![
            ProbeText::AsGiven(path),
            ProbeText::InProject(path),
            ProbeText::InProject(rest),
            ProbeText::SameName(path),
        ],
{
    reveal_strlit("\\\\?\\");
    reveal_strlit("\\");
    reveal_strlit("/");
    assert(!has_prefix(path, "\\\\?\\"@)) by {
        if has_prefix(path, "\\\\?\\"@) {
            assert(path.take(4)[0] == '\\');
            assert(path[0] == '\\');
        }
    }
    assert(!occurs(path, "\\"@)) by {
        if occurs(path, "\\"@) {
            let i = choose|i: int| crate::strings::occurs_at(path, "\\"@, i);
            assert(path.subrange(i, i + 1)[0] == '\\');
            assert(path[i] == '\\');
        }
    }
    lemma_nothing_to_replace(path, "\\"@, "/"@);
    let first = seq![ProbeText::AsGiven(path), ProbeText::InProject(path)];
    assert(first.push(ProbeText::SameName(path)) =~= seq![
        ProbeText::AsGiven(path),
        ProbeText::InProject(path),
        ProbeText::SameName(path),
    ]);
    if path == folder + "/"@ + rest {
        assert(path.take(folder.len() as int + 1) =~= folder + "/"@);
        assert(path.skip(folder.len() as int + 1) =~= rest);
        assert(first.push(ProbeText::InProject(rest)).push(ProbeText::SameName(path)) =~= seq![
            ProbeText::AsGiven(path),
            ProbeText::InProject(path),
            ProbeText::InProject(rest),
            ProbeText::SameName(path),
        ]);
    }
}

/// A `y` is a yes, small or capital and whatever blanks stand round it; an answer with any other
/// character that is no blank, or with none, is not.
pub proof fn law_only_a_y_is_a_yes(a: Seq<char>, text: Seq<char>, b: Seq<char>)
    requires
        is_blank(a),
        is_blank(b),
        text.len() > 0,
        !is_ws(text[0]),
        !is_ws(text.last()),
    ensures
        says_yes(a + text + b) <==> text == seq!['y'] || text == seq!['Y'],
        !says_yes(a),
{
    reveal_strlit("y");
    reveal_strlit("Y");
    assert("y"@ =~= seq!['y']);
    assert("Y"@ =~= seq!['Y']);
    law_trim_takes_blanks_off(a, text, b);
    lemma_trim_blank(a);
}

proof fn lemma_backslashes_turned(s: Seq<char>)
    ensures
        replace_all(s, "\\"@, "/"@) == s.map_values(
            |c: char|
                if c == '\\' {
                    '/'
                } else {
                    c
                },
        ),
    decreases s.len(),
{
    reveal_strlit("\\");
    reveal_strlit("/");
    let from = "\\"@;
    let to = "/"@;
    let turn = |c: char|
        if c == '\\' {
            '/'
        } else {
            c
        };
    if s.len() == 0 {
        assert(s.map_values(turn) =~= s);
    } else {
        let rest = s.drop_first();
        lemma_backslashes_turned(rest);
        assert(s.skip(1) =~= rest);
        if s[0] == '\\' {
            assert(s.take(1) =~= from);
            assert(to + rest.map_values(turn) =~= s.map_values(turn));
        } else {
            assert(s.take(1)[0] != from[0]);
            assert(seq![s[0]] + rest.map_values(turn) =~= s.map_values(turn));
        }
    }
}

/// A path is cleaned character by character: each backslash becomes a slash, and nothing else changes
/// but for the prefix of long paths, which is dropped.
pub proof fn law_backslashes_become_slashes(path: Seq<char>)
    ensures
        !has_prefix(path, "\\\\?\\"@) ==> clean_path(path) == path.map_values(
            |c: char|
                if c == '\\' {
                    '/'
                } else {
                    c
                },
        ),
        clean_path("\\\\?\\"@ + path) == clean_path(path),
{
    reveal_strlit("\\\\?\\");
    lemma_backslashes_turned(path);
    let long = "\\\\?\\"@ + path;
    assert(long.take(4) =~= "\\\\?\\"@);
    assert(long.skip(4) =~= path);
}

/// A path that does not begin with the project's folder is looked for in the same three places as
/// without one.
pub proof fn law_other_paths_have_three_places(path: Seq<char>, folder: Seq<char>)
    requires
        !has_prefix(clean_path(path), folder + "/"@),
    ensures
        places(path, Some(folder)) == places(path, None),
{
}

/// A block between its markers is one edit: to the file that it names, with the lines that it shows as
/// what is searched for and as what takes its place. It makes a new file exactly if there is nothing
/// to search for.
pub proof fn law_marked_block_is_one_edit(
    file: Seq<char>,
    search: Seq<Seq<char>>,
    replace: Seq<Seq<char>>,
)
    requires
        file.len() > 0,
        trim(file) == file,
        !file.contains('\n'),
        plain_lines(search),
        plain_lines(replace),
        whole_lines(search),
        whole_lines(replace),
        replace.len() > 0,
    ensures
        ({
            let edits = marked_edits(
                seq!["FILE: "@ + file, "<<<<<<< SEARCH"@] + search + seq!["======="@] + replace
                    + seq![">>>>>>> REPLACE"@],
            );
            &&& edits.len() == 1
            &&& edits[0].file_path == file
            &&& edits[0].search == join(search, "\n"@)
            &&& edits[0].replace == join(replace, "\n"@)
            &&& edits[0].mode == EditMode::Create <==> search.len() == 0
            &&& edits[0].mode == EditMode::Replace <==> search.len() > 0
        }),
{
    let b = MarkedBlock { file, search, replace };
    let ls = block_lines(b);
    assert(ls.subrange(0, ls.len() as int) =~= ls);
    lemma_block_read(ls, 0, b);
}

proof fn lemma_line_left_out(a: Seq<Seq<char>>, line: Seq<char>, b: Seq<Seq<char>>, n: int)
    requires
        0 <= n <= b.len(),
        plain_line(line),
        !block_run(a, a.len() as int).in_search,
        !block_run(a, a.len() as int).in_replace,
    ensures
        block_run(a + seq![line] + b, a.len() + 1 + n) == block_run(a + b, a.len() + n),
    decreases n,
{
    let long = a + seq![line] + b;
    let short = a + b;
    let m = a.len() as int;
    if n == 0 {
        lemma_run_of_prefix(a, seq![line] + b, m);
        assert(a + (seq![line] + b) =~= long);
        lemma_run_of_prefix(a, b, m);
        assert(long[m] == line);
        assert(block_run(long, m + 1) == block_step(block_run(long, m), line));
    } else {
        lemma_line_left_out(a, line, b, n - 1);
        assert(long[m + n] == b[n - 1]);
        assert(short[m + n - 1] == b[n - 1]);
        assert(block_run(long, m + 1 + n) == block_step(block_run(long, m + n), long[m + n]));
        assert(block_run(short, m + n) == block_step(
            block_run(short, m + n - 1),
            short[m + n - 1],
        ));
    }
}

/// What a model says between its blocks makes no difference to the edits.
pub proof fn law_talk_between_blocks_is_left_out(
    a: Seq<Seq<char>>,
    line: Seq<char>,
    b: Seq<Seq<char>>,
)
    requires
        plain_line(line),
        !block_run(a, a.len() as int).in_search,
        !block_run(a, a.len() as int).in_replace,
    ensures
        marked_edits(a + seq![line] + b) == marked_edits(a + b),
{
    lemma_line_left_out(a, line, b, b.len() as int);
}

/// A block without lines to put in, and one that no file was named for, is no edit.
pub proof fn law_incomplete_block_is_no_edit(ls: Seq<Seq<char>>, n: int)
    requires
        0 <= n < ls.len(),
        has_prefix(ls[n], ">>>>>>> REPLACE"@),
        block_run(ls, n).replace.len() == 0 || block_run(ls, n).file.len() == 0,
    ensures
        block_run(ls, n + 1).blocks == block_run(ls, n).blocks,
{
    reveal_strlit("FILE:");
    reveal_strlit("<<<<<<< SEARCH");
    reveal_strlit("=======");
    reveal_strlit(">>>>>>> REPLACE");
    let line = ls[n];
    assert(line.take(15)[0] == '>');
    if has_prefix(line, "FILE:"@) {
        assert(line.take(5)[0] == 'F');
    }
    if has_prefix(line, "<<<<<<< SEARCH"@) {
        assert(line.take(14)[0] == '<');
    }
    if has_prefix(line, "======="@) {
        assert(line.take(7)[0] == '=');
    }
}

} // verus!
