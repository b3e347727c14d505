//! The agent's tools: what it is told of files, folders and commands.
use vstd::prelude::*;

use crate::edits::{FileLookup, LookupText};
use crate::json::{compact, Json, JsonDocument};
use crate::numbers::{append_number, append_right_aligned, decimal, right_align};
use crate::strings::{
    blank_text, has_prefix, is_blank, join, join_strings, lemma_join_shows_parts,
    lemma_occurs_behind, lemma_occurs_between, lemma_occurs_in_front, lemma_occurs_whole, lines,
    occurs, split_lines, text_starts_with, texts, views,
};
use crate::text::{
    append_text, byte_len, bytes_of, from_chars, is_ws, on_boundary, same_text, to_chars,
};

verus! {

// ---------------------------------------------------------------------------------------------
// Reading a file
// ---------------------------------------------------------------------------------------------
/// How many lines the agent is shown at once.
pub const MAX_READ_LINES: usize = 400;

/// The lines `from` to `to`, counted from one, with their numbers.
pub open spec fn numbered_lines(ls: Seq<Seq<char>>, from: int, to: int) -> Seq<char>
    decreases to,
{
    if to < from || to <= 0 {
        Seq::<char>::empty()
    } else {
        numbered_lines(ls, from, to - 1) + (right_align(decimal(to as nat), 5) + ": "@ + ls[to - 1]
            + "\n"@)
    }
}

/// The first line that is shown.
pub open spec fn first_shown(start: int) -> int {
    if start < 1 {
        1
    } else {
        start
    }
}

/// The last line that was asked for, in a file of `total` lines.
pub open spec fn last_asked(start: int, end: int, total: int) -> int {
    let wanted = if end < first_shown(start) {
        first_shown(start)
    } else {
        end
    };
    if wanted < total {
        wanted
    } else {
        total
    }
}

/// The last line that is shown.
pub open spec fn last_shown(start: int, end: int, total: int) -> int {
    let asked = last_asked(start, end, total);
    if asked - first_shown(start) >= MAX_READ_LINES {
        first_shown(start) + MAX_READ_LINES - 1
    } else {
        asked
    }
}

/// What the agent is shown of a file when it asks for the lines `start` to `end`.
pub open spec fn excerpt(content: Seq<char>, start: int, end: int) -> Seq<char> {
    let ls = lines(content);
    let total = ls.len() as int;
    let first = first_shown(start);
    if total == 0 {
        "(file is empty)"@
    } else if first > total {
        "Error: start_line "@ + decimal(first as nat) + " is beyond file length ("@ + decimal(
            total as nat,
        ) + " lines)"@
    } else {
        let last = last_shown(start, end, total);
        numbered_lines(ls, first, last) + (if last < last_asked(start, end, total) {
            "...[truncated at line "@ + decimal(last as nat)
                + "; request a narrower range to see more]\n"@
        } else {
            ""@
        })
    }
}

/// What the agent is shown of a file when it asks for the lines `start` to `end`.
pub fn read_lines(content: &str, start: usize, end: usize) -> (res: String)
    ensures
        res@ == excerpt(content@, start as int, end as int),
{
    let chars = to_chars(content);
    let ls = split_lines(chars.as_slice());
    let ghost all = lines(content@);
    let total = ls.len();
    if total == 0 {
        return "(file is empty)".to_owned();
    }
    let first: usize = if start < 1 {
        1
    } else {
        start
    };
    if first > total {
        let mut out = "Error: start_line ".to_owned();
        append_number(&mut out, first as u64);
        append_text(&mut out, " is beyond file length (");
        append_number(&mut out, total as u64);
        append_text(&mut out, " lines)");
        return out;
    }
    let wanted: usize = if end < first {
        first
    } else {
        end
    };
    let asked: usize = if wanted < total {
        wanted
    } else {
        total
    };
    let last: usize = if asked - first >= MAX_READ_LINES {
        first + (MAX_READ_LINES - 1)
    } else {
        asked
    };
    let mut out = String::new();
    let mut i: usize = first - 1;
    assert(numbered_lines(all, first as int, first - 1) =~= Seq::<char>::empty());
    while i < last
        invariant
            1 <= first,
            first - 1 <= i <= last,
            last <= total,
            total == ls@.len(),
            views(ls@) == all,
            out@ == numbered_lines(all, first as int, i as int),
        decreases last - i,
    {
        assert(all[i as int] == ls@[i as int]@);
        let mut line = String::new();
        append_right_aligned(&mut line, i + 1, 5);
        append_text(&mut line, ": ");
        append_text(&mut line, from_chars(ls[i]).as_str());
        append_text(&mut line, "\n");
        assert(line@ =~= right_align(decimal((i + 1) as nat), 5) + ": "@ + all[i as int] + "\n"@);
        append_text(&mut out, line.as_str());
        i = i + 1;
    }
    if last < asked {
        let mut note = "...[truncated at line ".to_owned();
        append_number(&mut note, last as u64);
        append_text(&mut note, "; request a narrower range to see more]\n");
        append_text(&mut out, note.as_str());
    } else {
        append_text(&mut out, "");
    }
    out
}

/// What the agent is told when it asks for lines of a file. `file` is what the disk says of the
/// path; it does not matter where the path is blank.
pub open spec fn read_observation(
    path: Seq<char>,
    start: int,
    end: int,
    input: Json,
    file: LookupText,
) -> Seq<char> {
    if is_blank(path) {
        "Error: read_file requires a non-empty \"path\" (e.g. the exact path shown by list_directory, such as \"index.html\"). You sent action_input: "@
            + compact(input)
            + ". The field must be named \"path\" — \"file_path\" is only used by write_file_edits."@
    } else {
        match file.path {
            None => "Error: file not found: '"@ + path
                + "'. Call list_directory first and copy an exact path from its output."@,
            Some(found) => match file.content {
                Err(e) => "Error reading "@ + found + ": "@ + e,
                Ok(content) => excerpt(content, start, end),
            },
        }
    }
}

/// What the agent is told when it asks for lines of a file. `file` is what the disk says of the
/// path; it does not matter where the path is blank.
pub fn tool_read_file(
    path: &str,
    start_line: usize,
    end_line: usize,
    raw_input: &JsonDocument,
    file: &FileLookup,
) -> (res: String)
    ensures
        res@ == read_observation(
            path@,
            start_line as int,
            end_line as int,
            raw_input@,
            file@,
        ),
{
    if blank_text(path) {
        let mut out =
            "Error: read_file requires a non-empty \"path\" (e.g. the exact path shown by list_directory, such as \"index.html\"). You sent action_input: ".to_owned();
        append_text(&mut out, raw_input.text());
        append_text(
            &mut out,
            ". The field must be named \"path\" — \"file_path\" is only used by write_file_edits.",
        );
        return out;
    }
    match &file.path {
        None => {
            let mut out = "Error: file not found: '".to_owned();
            append_text(&mut out, path);
            append_text(
                &mut out,
                "'. Call list_directory first and copy an exact path from its output.",
            );
            out
        },
        Some(found) => match &file.content {
            Err(e) => {
                let mut out = "Error reading ".to_owned();
                append_text(&mut out, found.as_str());
                append_text(&mut out, ": ");
                append_text(&mut out, e.as_str());
                out
            },
            Ok(content) => read_lines(content.as_str(), start_line, end_line),
        },
    }
}

/// A request never shows more lines than the limit, and shows all that were asked for where those
/// are no more.
pub proof fn law_read_is_bounded(start: int, end: int, total: int)
    requires
        1 <= first_shown(start) <= total,
    ensures
        last_shown(start, end, total) - first_shown(start) < MAX_READ_LINES,
        first_shown(start) <= last_shown(start, end, total) <= total,
        last_asked(start, end, total) - first_shown(start) < MAX_READ_LINES ==> last_shown(
            start,
            end,
            total,
        ) == last_asked(start, end, total),
{
}

// ---------------------------------------------------------------------------------------------
// Listing a folder
// ---------------------------------------------------------------------------------------------
/// Whether `a` stands before `b` in the order of a listing, or is the same.
pub open spec fn text_le(a: Seq<char>, b: Seq<char>) -> bool
    decreases a.len(),
{
    if a.len() == 0 {
        true
    } else if b.len() == 0 {
        false
    } else if a[0] == b[0] {
        text_le(a.drop_first(), b.drop_first())
    } else {
        a[0] < b[0]
    }
}

/// Whether `a` stands before `b` in the order of a listing, or is the same.
pub fn not_after(a: &str, b: &str) -> (res: bool)
    ensures
        res == text_le(a@, b@),
{
    let x = to_chars(a);
    let y = to_chars(b);
    let mut i: usize = 0;
    assert(x@.skip(0) =~= x@);
    assert(y@.skip(0) =~= y@);
    while i < x.len()
        invariant
            x@ == a@,
            y@ == b@,
            i <= x@.len(),
            i <= y@.len(),
            text_le(a@, b@) == text_le(x@.skip(i as int), y@.skip(i as int)),
        decreases x@.len() - i,
    {
        if i >= y.len() {
            return false;
        }
        assert(x@.skip(i as int)[0] == x@[i as int]);
        assert(y@.skip(i as int)[0] == y@[i as int]);
        if x[i] != y[i] {
            return x[i] < y[i];
        }
        assert(x@.skip(i as int).drop_first() =~= x@.skip(i + 1));
        assert(y@.skip(i as int).drop_first() =~= y@.skip(i + 1));
        i = i + 1;
    }
    true
}

/// A sorted list with one more text, behind those that are not after it.
pub open spec fn inserted(sorted: Seq<Seq<char>>, text: Seq<char>) -> Seq<Seq<char>>
    decreases sorted.len(),
{
    if sorted.len() == 0 || text_le(sorted.last(), text) {
        sorted.push(text)
    } else {
        inserted(sorted.drop_last(), text).push(sorted.last())
    }
}

/// A list of texts in order.
pub open spec fn sorted_texts(list: Seq<Seq<char>>) -> Seq<Seq<char>>
    decreases list.len(),
{
    if list.len() == 0 {
        list
    } else {
        inserted(sorted_texts(list.drop_last()), list.last())
    }
}

/// Puts a text into a sorted list.
fn insert_text(list: &mut Vec<String>, text: String)
    ensures
        texts(final(list)@) == inserted(texts(old(list)@), text@),
{
    let ghost before = texts(list@);
    let ghost new = text@;
    let mut i: usize = list.len();
    assert(before.take(i as int) =~= before);
    assert(inserted(before, new) + before.skip(i as int) =~= inserted(before, new));
    while i > 0 && !not_after(list[i - 1].as_str(), text.as_str())
        invariant
            i <= list@.len(),
            before == texts(list@),
            new == text@,
            inserted(before, new) == inserted(before.take(i as int), new) + before.skip(i as int),
        decreases i,
    {
        assert(before[i - 1] == list@[i - 1]@);
        assert(before.take(i as int).drop_last() =~= before.take(i - 1));
        assert(inserted(before.take(i - 1), new).push(before[i - 1]) + before.skip(i as int)
            =~= inserted(before.take(i - 1), new) + before.skip(i - 1));
        i = i - 1;
    }
    assert(i > 0 ==> before[i - 1] == list@[i - 1]@);
    list.insert(i, text);
    assert(texts(list@) =~= before.take(i as int).push(new) + before.skip(i as int));
}

/// An entry of a folder.
#[derive(Debug)]
pub struct FolderEntry {
    pub name: String,
    pub is_dir: bool,
}

/// What the entries of a folder say.
pub open spec fn entry_texts(v: Seq<FolderEntry>) -> Seq<(Seq<char>, bool)> {
    v.map_values(|e: FolderEntry| (e.name@, e.is_dir))
}

/// Whether an entry is left out of a listing.
pub open spec fn clutter(name: Seq<char>) -> bool {
    has_prefix(name, "."@) || name == "node_modules"@ || name == "target"@
}

/// The line of an entry.
pub open spec fn entry_line(entry: (Seq<char>, bool)) -> Seq<char> {
    "["@ + (if entry.1 {
        "dir"@
    } else {
        "file"@
    }) + "] "@ + entry.0
}

/// The lines of the first `n` entries, in the order in which they come.
pub open spec fn entry_lines(entries: Seq<(Seq<char>, bool)>, n: int) -> Seq<Seq<char>>
    decreases n,
{
    if n <= 0 {
        Seq::<Seq<char>>::empty()
    } else if clutter(entries[n - 1].0) {
        entry_lines(entries, n - 1)
    } else {
        entry_lines(entries, n - 1).push(entry_line(entries[n - 1]))
    }
}

/// The listing of a folder: a line for every entry that is no clutter, in order.
pub open spec fn listing(entries: Seq<(Seq<char>, bool)>) -> Seq<char> {
    let shown = sorted_texts(entry_lines(entries, entries.len() as int));
    if shown.len() == 0 {
        "(empty directory)"@
    } else {
        join(shown, "\n"@)
    }
}

/// The listing of a folder: a line for every entry that is no clutter, in order.
pub fn list_entries(entries: &Vec<FolderEntry>) -> (res: String)
    ensures
        res@ == listing(entry_texts(entries@)),
{
    let ghost all = entry_texts(entries@);
    let mut shown: Vec<String> = Vec::new();
    assert(texts(shown@) =~= sorted_texts(entry_lines(all, 0)));
    for i in 0..entries.len()
        invariant
            all == entry_texts(entries@),
            texts(shown@) == sorted_texts(entry_lines(all, i as int)),
    {
        let entry = &entries[i];
        assert(all[i as int] == (entry.name@, entry.is_dir));
        let name = entry.name.as_str();
        if !(text_starts_with(name, ".") || same_text(name, "node_modules") || same_text(
            name,
            "target",
        )) {
            let mut line = "[".to_owned();
            if entry.is_dir {
                append_text(&mut line, "dir");
            } else {
                append_text(&mut line, "file");
            }
            append_text(&mut line, "] ");
            append_text(&mut line, name);
            let ghost text = line@;
            let ghost so_far = entry_lines(all, i as int);
            assert(so_far.push(text).drop_last() =~= so_far);
            insert_text(&mut shown, line);
        }
    }
    if shown.len() == 0 {
        "(empty directory)".to_owned()
    } else {
        join_strings(&shown, "\n")
    }
}

/// What the agent is told when it lists a folder: where the folder is, and its entries or why
/// there are none to be had.
#[derive(Debug)]
pub enum FolderLookup {
    /// There is no folder at this place.
    Missing(String),
    /// The folder at this place could not be read, for this reason.
    Failed(String, String),
    /// The entries, in any order.
    Entries(Vec<FolderEntry>),
}

/// What the agent is told when it lists a folder.
pub open spec fn list_observation(folder: FolderLookup) -> Seq<char> {
    match folder {
        FolderLookup::Missing(place) => "Error: directory not found: "@ + place@,
        FolderLookup::Failed(place, reason) => "Error listing "@ + place@ + ": "@ + reason@,
        FolderLookup::Entries(entries) => listing(entry_texts(entries@)),
    }
}

/// What the agent is told when it lists a folder.
pub fn tool_list_directory(folder: &FolderLookup) -> (res: String)
    ensures
        res@ == list_observation(*folder),
{
    match folder {
        FolderLookup::Missing(place) => {
            let mut out = "Error: directory not found: ".to_owned();
            append_text(&mut out, place.as_str());
            out
        },
        FolderLookup::Failed(place, reason) => {
            let mut out = "Error listing ".to_owned();
            append_text(&mut out, place.as_str());
            append_text(&mut out, ": ");
            append_text(&mut out, reason.as_str());
            out
        },
        FolderLookup::Entries(entries) => list_entries(entries),
    }
}

/// Whether a path means the project's own folder.
pub fn is_project_root(rel_path: &str) -> (res: bool)
    ensures
        res == (is_blank(rel_path@) || rel_path@ == "."@),
{
    blank_text(rel_path) || same_text(rel_path, ".")
}

/// Whether no text stands after one that it should follow.
pub open spec fn in_order(list: Seq<Seq<char>>) -> bool {
    forall|i: int, j: int| 0 <= i < j < list.len() ==> text_le(#[trigger] list[i], #[trigger] list[j])
}

proof fn lemma_text_le_total(a: Seq<char>, b: Seq<char>)
    ensures
        text_le(a, b) || text_le(b, a),
    decreases a.len(),
{
    if a.len() > 0 && b.len() > 0 && a[0] == b[0] {
        lemma_text_le_total(a.drop_first(), b.drop_first());
    }
}

proof fn lemma_text_le_transitive(a: Seq<char>, b: Seq<char>, c: Seq<char>)
    requires
        text_le(a, b),
        text_le(b, c),
    ensures
        text_le(a, c),
    decreases a.len(),
{
    if a.len() > 0 && b.len() > 0 && c.len() > 0 && a[0] == b[0] && b[0] == c[0] {
        lemma_text_le_transitive(a.drop_first(), b.drop_first(), c.drop_first());
    }
}

proof fn lemma_inserted(sorted: Seq<Seq<char>>, text: Seq<char>)
    requires
        in_order(sorted),
    ensures
        in_order(inserted(sorted, text)),
        inserted(sorted, text).to_multiset() == sorted.to_multiset().insert(text),
        forall|i: int|
            0 <= i < inserted(sorted, text).len() ==> #[trigger] inserted(sorted, text)[i] == text
                || sorted.contains(inserted(sorted, text)[i]),
    decreases sorted.len(),
{
    broadcast use vstd::seq_lib::group_to_multiset_ensures;

    let now = inserted(sorted, text);
    if sorted.len() == 0 {
    } else if text_le(sorted.last(), text) {
        assert forall|i: int, j: int| 0 <= i < j < now.len() implies text_le(
            #[trigger] now[i],
            #[trigger] now[j],
        ) by {
            if j == now.len() - 1 {
                if i < sorted.len() - 1 {
                    assert(text_le(sorted[i], sorted[sorted.len() - 1]));
                    lemma_text_le_transitive(sorted[i], sorted.last(), text);
                }
            } else {
                assert(text_le(sorted[i], sorted[j]));
            }
        }
        assert forall|i: int| 0 <= i < now.len() implies #[trigger] now[i] == text
            || sorted.contains(now[i]) by {
            if i < sorted.len() {
                assert(sorted[i] == now[i]);
            }
        }
    } else {
        let head = sorted.drop_last();
        let last = sorted.last();
        assert(in_order(head)) by {
            assert forall|i: int, j: int| 0 <= i < j < head.len() implies text_le(
                #[trigger] head[i],
                #[trigger] head[j],
            ) by {
                assert(text_le(sorted[i], sorted[j]));
            }
        }
        lemma_inserted(head, text);
        let before = inserted(head, text);
        lemma_text_le_total(last, text);
        assert forall|i: int, j: int| 0 <= i < j < now.len() implies text_le(
            #[trigger] now[i],
            #[trigger] now[j],
        ) by {
            if j == now.len() - 1 {
                assert(now[i] == before[i]);
                if before[i] != text {
                    let k = choose|k: int| 0 <= k < head.len() && head[k] == before[i];
                    assert(text_le(sorted[k], sorted[sorted.len() - 1]));
                }
            } else {
                assert(text_le(before[i], before[j]));
            }
        }
        assert(head.push(last) =~= sorted);
        assert(before.push(last).to_multiset() == before.to_multiset().insert(last));
        assert(sorted.to_multiset() == head.to_multiset().insert(last));
        assert(head.to_multiset().insert(text).insert(last) =~= head.to_multiset().insert(
            last,
        ).insert(text));
        assert forall|i: int| 0 <= i < now.len() implies #[trigger] now[i] == text
            || sorted.contains(now[i]) by {
            if i < before.len() {
                assert(now[i] == before[i]);
                if before[i] != text {
                    let k = choose|k: int| 0 <= k < head.len() && head[k] == before[i];
                    assert(sorted[k] == now[i]);
                }
            } else {
                assert(sorted[sorted.len() - 1] == now[i]);
            }
        }
    }
}

/// A listing has its lines in order and loses none of them.
pub proof fn law_listing_is_sorted(list: Seq<Seq<char>>)
    ensures
        in_order(sorted_texts(list)),
        sorted_texts(list).to_multiset() == list.to_multiset(),
    decreases list.len(),
{
    broadcast use vstd::seq_lib::group_to_multiset_ensures;

    if list.len() > 0 {
        law_listing_is_sorted(list.drop_last());
        lemma_inserted(sorted_texts(list.drop_last()), list.last());
        assert(list.drop_last().push(list.last()) =~= list);
    }
}

// ---------------------------------------------------------------------------------------------
// Running a command
// ---------------------------------------------------------------------------------------------
/// How many bytes of a command's output the agent is shown.
pub const MAX_OUTPUT_BYTES: usize = 6000;

/// How a command ended.
#[derive(Debug)]
pub enum CommandEnd {
    /// It ran to its end.
    Finished { success: bool, status: String, stdout: String, stderr: String },
    /// It could not be run, for this reason.
    Failed(String),
    /// It took too long.
    TimedOut,
}

/// What a command gave.
#[derive(Debug)]
pub struct CommandOutput {
    pub success: bool,
    pub text: String,
}

/// All that a command printed.
pub open spec fn combined_output(
    status: Seq<char>,
    stdout: Seq<char>,
    stderr: Seq<char>,
) -> Seq<char> {
    "exit status: "@ + status + "\nstdout:\n"@ + stdout + "\nstderr:\n"@ + stderr
}

/// All that a command printed.
pub fn combine_output(status: &str, stdout: &str, stderr: &str) -> (res: String)
    ensures
        res@ == combined_output(status@, stdout@, stderr@),
{
    let mut out = "exit status: ".to_owned();
    append_text(&mut out, status);
    append_text(&mut out, "\nstdout:\n");
    append_text(&mut out, stdout);
    append_text(&mut out, "\nstderr:\n");
    append_text(&mut out, stderr);
    out
}

/// Whether a text can be cut to the size that the agent is shown: it is no longer, or no
/// character lies across the limit.
pub open spec fn can_be_cut(text: Seq<char>) -> bool {
    byte_len(text) <= MAX_OUTPUT_BYTES || on_boundary(text, MAX_OUTPUT_BYTES as int)
}

/// A text cut to the size that the agent is shown.
pub open spec fn capped(text: Seq<char>) -> Seq<char> {
    if byte_len(text) > MAX_OUTPUT_BYTES {
        crate::text::byte_slice(text, 0, MAX_OUTPUT_BYTES as int) + "\n...[truncated]"@
    } else {
        text
    }
}

/// Whether a text can be cut to the size that the agent is shown.
pub fn fits_output(text: &str) -> (res: bool)
    ensures
        res == can_be_cut(text@),
{
    let chars = to_chars(text);
    bytes_of(chars.as_slice()) <= MAX_OUTPUT_BYTES || crate::text::find_char_pos(
        chars.as_slice(),
        MAX_OUTPUT_BYTES,
    ).is_some()
}

/// A text cut to the size that the agent is shown.
pub fn cap_output(text: &str) -> (res: String)
    requires
        can_be_cut(text@),
    ensures
        res@ == capped(text@),
{
    let chars = to_chars(text);
    if bytes_of(chars.as_slice()) <= MAX_OUTPUT_BYTES {
        return text.to_owned();
    }
    proof {
        assert(text@.take(0) =~= Seq::<char>::empty());
        crate::text::lemma_at_byte_unique(text@, 0, 0);
    }
    match crate::text::find_char_pos(chars.as_slice(), MAX_OUTPUT_BYTES) {
        Some(end) => {
            let mut out = from_chars(vstd::slice::slice_subrange(chars.as_slice(), 0, end));
            append_text(&mut out, "\n...[truncated]");
            out
        },
        None => text.to_owned(),
    }
}

/// Whether what a command printed can be cut to the size that the agent is shown.
pub open spec fn end_can_be_shown(end: CommandEnd) -> bool {
    match end {
        CommandEnd::Finished { success, status, stdout, stderr } => can_be_cut(
            combined_output(status@, stdout@, stderr@),
        ),
        _ => true,
    }
}

/// What a command that ended in the given way gave.
pub open spec fn ended(end: CommandEnd) -> (bool, Seq<char>) {
    match end {
        CommandEnd::Finished { success, status, stdout, stderr } => (
            success,
            capped(combined_output(status@, stdout@, stderr@)),
        ),
        CommandEnd::Failed(reason) => (false, "Error executing command: "@ + reason@),
        CommandEnd::TimedOut => (false, "Error: command timed out after 120 seconds"@),
    }
}

/// What a command that ended in the given way gave.
pub fn tool_run_command(end: &CommandEnd) -> (res: CommandOutput)
    requires
        end_can_be_shown(*end),
    ensures
        (res.success, res.text@) == ended(*end),
{
    match end {
        CommandEnd::Finished { success, status, stdout, stderr } => {
            let text = combine_output(status.as_str(), stdout.as_str(), stderr.as_str());
            CommandOutput { success: *success, text: cap_output(text.as_str()) }
        },
        CommandEnd::Failed(reason) => {
            let mut text = "Error executing command: ".to_owned();
            append_text(&mut text, reason.as_str());
            CommandOutput { success: false, text }
        },
        CommandEnd::TimedOut => CommandOutput {
            success: false,
            text: "Error: command timed out after 120 seconds".to_owned(),
        },
    }
}

// ---------------------------------------------------------------------------------------------
// Checking a project
// ---------------------------------------------------------------------------------------------
/// Which of the files that tell the kind of a project are there.
#[derive(Debug, Clone, Copy)]
pub struct ProjectMarkers {
    pub cargo_toml: bool,
    pub package_json: bool,
    pub pyproject_toml: bool,
    pub requirements_txt: bool,
    pub go_mod: bool,
}

/// The command that builds or tests a project of that kind.
pub open spec fn build_command(markers: ProjectMarkers) -> Option<Seq<char>> {
    if markers.cargo_toml {
        Some("cargo check --message-format short"@)
    } else if markers.package_json {
        Some("npm test --silent"@)
    } else if markers.pyproject_toml || markers.requirements_txt {
        Some("python -m pytest -q"@)
    } else if markers.go_mod {
        Some("go build ./..."@)
    } else {
        None
    }
}

/// The command that builds or tests a project of that kind.
pub fn detect_build_command(markers: ProjectMarkers) -> (res: Option<String>)
    ensures
        crate::strings::option_text(res) == build_command(markers),
{
    if markers.cargo_toml {
        Some("cargo check --message-format short".to_owned())
    } else if markers.package_json {
        Some("npm test --silent".to_owned())
    } else if markers.pyproject_toml || markers.requirements_txt {
        Some("python -m pytest -q".to_owned())
    } else if markers.go_mod {
        Some("go build ./...".to_owned())
    } else {
        None
    }
}

// ---------------------------------------------------------------------------------------------
// What the tools show
// ---------------------------------------------------------------------------------------------
/// A line as it is shown, with its number.
pub open spec fn line_with_number(ls: Seq<Seq<char>>, number: int) -> Seq<char> {
    right_align(decimal(number as nat), 5) + ": "@ + ls[number - 1] + "\n"@
}

/// A request for one line of a file shows that line, with its number.
pub proof fn law_one_line_is_shown(content: Seq<char>, x: int)
    requires
        1 <= x <= lines(content).len(),
    ensures
        excerpt(content, x, x) == line_with_number(lines(content), x),
{
    let ls = lines(content);
    reveal_strlit("");
    reveal_with_fuel(numbered_lines, 2);
    let none = Seq::<char>::empty();
    assert(none + line_with_number(ls, x) + ""@ =~= line_with_number(ls, x));
}

/// A request for one line more shows the same lines and behind them the one, up to the end of the
/// file and up to four hundred lines.
pub proof fn law_one_line_more_is_shown(content: Seq<char>, start: int, end: int)
    requires
        1 <= start <= end < lines(content).len(),
        end + 1 < start + 400,
    ensures
        excerpt(content, start, end + 1) == excerpt(content, start, end) + line_with_number(
            lines(content),
            end + 1,
        ),
{
    let ls = lines(content);
    reveal_strlit("");
    let shown = numbered_lines(ls, start, end);
    assert(numbered_lines(ls, start, end + 1) == shown + line_with_number(ls, end + 1));
    assert(shown + line_with_number(ls, end + 1) + ""@ =~= (shown + ""@) + line_with_number(
        ls,
        end + 1,
    ));
}

/// A request for more than four hundred lines shows the first four hundred, and says so.
pub proof fn law_long_request_is_cut(content: Seq<char>, start: int, end: int)
    requires
        1 <= start,
        start + 400 <= end <= lines(content).len(),
    ensures
        excerpt(content, start, end) == excerpt(content, start, start + 399)
            + "...[truncated at line "@ + decimal((start + 399) as nat)
            + "; request a narrower range to see more]\n"@,
{
    let ls = lines(content);
    reveal_strlit("");
    let shown = numbered_lines(ls, start, start + 399);
    let note = "...[truncated at line "@ + decimal((start + 399) as nat)
        + "; request a narrower range to see more]\n"@;
    assert(shown + note =~= (shown + ""@) + "...[truncated at line "@ + decimal(
        (start + 399) as nat,
    ) + "; request a narrower range to see more]\n"@);
}

/// A request that leaves the file, or ends before it starts, is taken for the nearest that does not.
pub proof fn law_request_is_kept_in_the_file(content: Seq<char>, start: int, end: int)
    ensures
        start < 1 ==> excerpt(content, start, end) == excerpt(content, 1, end),
        1 <= start <= lines(content).len() && end > lines(content).len() ==> excerpt(
            content,
            start,
            end,
        ) == excerpt(content, start, lines(content).len() as int),
        1 <= start <= lines(content).len() && end < start ==> excerpt(content, start, end)
            == excerpt(content, start, start),
        lines(content).len() == 0 ==> excerpt(content, start, end) == "(file is empty)"@,
        start > lines(content).len() > 0 ==> excerpt(content, start, end) == "Error: start_line "@
            + decimal(start as nat) + " is beyond file length ("@ + decimal(lines(content).len())
            + " lines)"@,
{
}

/// Both texts stand in what is put together of them.
proof fn lemma_two_told(head: Seq<char>, x: Seq<char>, mid: Seq<char>, y: Seq<char>)
    ensures
        occurs(head + x + mid + y, x),
        occurs(head + x + mid + y, y),
{
    lemma_occurs_whole(x);
    lemma_occurs_whole(y);
    lemma_occurs_behind(head, x, x);
    lemma_occurs_in_front(head + x, mid, x);
    lemma_occurs_in_front(head + x + mid, y, x);
    lemma_occurs_behind(head + x + mid, y, y);
}

/// What the agent is told of a file that was found and read is the lines it asked for; of one that
/// was not, it is told the path.
pub proof fn law_read_tells_what_was_read(
    path: Seq<char>,
    start: int,
    end: int,
    input: Json,
    file: LookupText,
)
    requires
        exists|k: int| 0 <= k < path.len() && !is_ws(#[trigger] path[k]),
    ensures
        file.path is Some && file.content is Ok ==> read_observation(
            path,
            start,
            end,
            input,
            file,
        ) == excerpt(file.content->Ok_0, start, end),
        file.path is None ==> occurs(read_observation(path, start, end, input, file), path),
        file.path is Some && file.content is Err ==> occurs(
            read_observation(path, start, end, input, file),
            file.path->Some_0,
        ) && occurs(read_observation(path, start, end, input, file), file.content->Err_0),
{
    if file.path is None {
        lemma_occurs_whole(path);
        lemma_occurs_between(
            "Error: file not found: '"@,
            path,
            "'. Call list_directory first and copy an exact path from its output."@,
            path,
        );
    } else if let Err(e) = file.content {
        lemma_two_told("Error reading "@, file.path->Some_0, ": "@, e);
    }
}

proof fn lemma_entry_listed(entries: Seq<(Seq<char>, bool)>, n: int, i: int) -> (at: int)
    requires
        0 <= i < n <= entries.len(),
        !clutter(entries[i].0),
    ensures
        0 <= at < entry_lines(entries, n).len(),
        entry_lines(entries, n)[at] == entry_line(entries[i]),
    decreases n,
{
    if i == n - 1 {
        entry_lines(entries, n).len() - 1
    } else {
        lemma_entry_listed(entries, n - 1, i)
    }
}

/// Every text of a list occurs in the lines of the sorted list.
proof fn lemma_sorted_shows(list: Seq<Seq<char>>, at: int)
    requires
        0 <= at < list.len(),
    ensures
        sorted_texts(list).len() > 0,
        occurs(join(sorted_texts(list), "\n"@), list[at]),
{
    let sorted = sorted_texts(list);
    law_listing_is_sorted(list);
    assert(sorted.contains(list[at])) by {
        broadcast use vstd::seq_lib::group_to_multiset_ensures;

        assert(list.to_multiset().count(list[at]) > 0);
    }
    let k = choose|k: int| 0 <= k < sorted.len() && sorted[k] == list[at];
    lemma_join_shows_parts(sorted, "\n"@, k);
}

proof fn lemma_entry_line(entry: (Seq<char>, bool))
    ensures
        entry.1 ==> entry_line(entry) == "[dir] "@ + entry.0,
        !entry.1 ==> entry_line(entry) == "[file] "@ + entry.0,
{
    reveal_strlit("[");
    reveal_strlit("dir");
    reveal_strlit("file");
    reveal_strlit("] ");
    reveal_strlit("[dir] ");
    reveal_strlit("[file] ");
    assert("["@ + "dir"@ + "] "@ =~= "[dir] "@);
    assert("["@ + "file"@ + "] "@ =~= "[file] "@);
}

/// Every entry of a folder is in its listing, with its kind and its name, unless it is hidden or a
/// folder for what is built or fetched.
pub proof fn law_every_entry_is_listed(entries: Seq<(Seq<char>, bool)>, i: int)
    requires
        0 <= i < entries.len(),
        entries[i].0.len() == 0 || entries[i].0[0] != '.',
        entries[i].0 != "node_modules"@,
        entries[i].0 != "target"@,
    ensures
        entries[i].1 ==> occurs(listing(entries), "[dir] "@ + entries[i].0),
        !entries[i].1 ==> occurs(listing(entries), "[file] "@ + entries[i].0),
{
    let n = entries.len() as int;
    let name = entries[i].0;
    assert(!clutter(name)) by {
        reveal_strlit(".");
        if has_prefix(name, "."@) {
            assert(name.take(1)[0] == '.');
        }
    }
    let at = lemma_entry_listed(entries, n, i);
    lemma_sorted_shows(entry_lines(entries, n), at);
    lemma_entry_line(entries[i]);
}

proof fn lemma_same_entries(a: Seq<(Seq<char>, bool)>, b: Seq<(Seq<char>, bool)>, n: int)
    requires
        0 <= n <= a.len(),
        n <= b.len(),
        forall|i: int| 0 <= i < n ==> #[trigger] a[i] == b[i],
    ensures
        entry_lines(a, n) == entry_lines(b, n),
    decreases n,
{
    if n > 0 {
        lemma_same_entries(a, b, n - 1);
    }
}

/// Hidden entries, and folders for what is built or fetched, make no difference to a listing.
pub proof fn law_clutter_is_not_listed(entries: Seq<(Seq<char>, bool)>, entry: (Seq<char>, bool))
    requires
        (entry.0.len() > 0 && entry.0[0] == '.') || entry.0 == "node_modules"@ || entry.0
            == "target"@,
    ensures
        listing(entries.push(entry)) == listing(entries),
{
    reveal_strlit(".");
    if entry.0.len() > 0 && entry.0[0] == '.' {
        assert(entry.0.take(1) =~= "."@);
    }
    lemma_same_entries(entries.push(entry), entries, entries.len() as int);
}

/// The order of a listing is decided at the first character in which two lines differ, and a line
/// stands before those that go on where it ends.
pub proof fn law_order_is_by_first_difference(
    p: Seq<char>,
    x: char,
    a: Seq<char>,
    y: char,
    b: Seq<char>,
)
    ensures
        text_le(p, p + a),
        x != y ==> text_le(p + seq![x] + a, p + seq![y] + b) == (x < y),
        a.len() > 0 ==> !text_le(p + a, p),
    decreases p.len(),
{
    let u = p + seq![x] + a;
    let v = p + seq![y] + b;
    if p.len() == 0 {
        assert(u[0] == x && v[0] == y);
        assert(p + a =~= a);
    } else {
        let rest = p.drop_first();
        law_order_is_by_first_difference(rest, x, a, y, b);
        assert(u.drop_first() =~= rest + seq![x] + a);
        assert(v.drop_first() =~= rest + seq![y] + b);
        assert((p + a).drop_first() =~= rest + a);
        assert(u[0] == p[0] && v[0] == p[0] && (p + a)[0] == p[0]);
    }
}

/// Of output of more than six thousand bytes those are shown, from its start, and a mark behind them.
/// The command counts as a success exactly if it says so.
pub proof fn law_long_output_is_cut(
    success: bool,
    status: String,
    stdout: String,
    stderr: String,
    k: int,
)
    requires
        0 <= k <= combined_output(status@, stdout@, stderr@).len(),
        byte_len(combined_output(status@, stdout@, stderr@).take(k)) == 6000,
        byte_len(combined_output(status@, stdout@, stderr@)) > 6000,
    ensures
        ({
            let end = CommandEnd::Finished { success, status, stdout, stderr };
            let all = "exit status: "@ + status@ + "\nstdout:\n"@ + stdout@ + "\nstderr:\n"@
                + stderr@;
            &&& ended(end).0 == success
            &&& ended(end).1 == all.take(k) + "\n...[truncated]"@
        }),
{
    let all = combined_output(status@, stdout@, stderr@);
    assert(all.take(0) =~= Seq::<char>::empty());
    crate::text::lemma_at_byte_unique(all, 0, 0);
    crate::text::lemma_at_byte_unique(all, 6000, k);
    assert(all.subrange(0, k) =~= all.take(k));
}

/// Output of no more than six thousand bytes is shown whole.
pub proof fn law_short_output_is_shown_whole(
    success: bool,
    status: String,
    stdout: String,
    stderr: String,
)
    requires
        byte_len(combined_output(status@, stdout@, stderr@)) <= 6000,
    ensures
        ended(CommandEnd::Finished { success, status, stdout, stderr }) == (
            success,
            "exit status: "@ + status@ + "\nstdout:\n"@ + stdout@ + "\nstderr:\n"@ + stderr@,
        ),
{
}

/// A command that could not be run, or took too long, is no success; why it could not be run is told.
pub proof fn law_failure_is_told(reason: String)
    ensures
        !ended(CommandEnd::Failed(reason)).0,
        occurs(ended(CommandEnd::Failed(reason)).1, reason@),
        !ended(CommandEnd::TimedOut).0,
{
    lemma_occurs_whole(reason@);
    lemma_occurs_between("Error executing command: "@, reason@, seq![], reason@);
}

/// A project is checked by the tool of its kind, and one of several kinds by that of the first; only a
/// project of no known kind is not checked.
pub proof fn law_project_is_checked_by_its_tool(markers: ProjectMarkers)
    ensures
        markers.cargo_toml ==> build_command(markers) == Some(
            "cargo check --message-format short"@,
        ),
        markers.package_json && !markers.cargo_toml ==> build_command(markers) == Some(
            "npm test --silent"@,
        ),
        (markers.pyproject_toml || markers.requirements_txt) && !markers.cargo_toml
            && !markers.package_json ==> build_command(markers) == Some("python -m pytest -q"@),
        build_command(markers) == Some("go build ./..."@) ==> markers.go_mod,
        build_command(markers) is None <==> !(markers.cargo_toml || markers.package_json
            || markers.pyproject_toml || markers.requirements_txt || markers.go_mod),
        markers == (ProjectMarkers {
            cargo_toml: false,
            package_json: false,
            pyproject_toml: false,
            requirements_txt: false,
            go_mod: true,
        }) ==> build_command(markers) == Some("go build ./..."@),
{
    reveal_strlit("cargo check --message-format short");
    reveal_strlit("npm test --silent");
    reveal_strlit("python -m pytest -q");
    reveal_strlit("go build ./...");
    assert("cargo check --message-format short"@[0] != "go build ./..."@[0]);
    assert("npm test --silent"@[0] != "go build ./..."@[0]);
    assert("python -m pytest -q"@[0] != "go build ./..."@[0]);
}

/// A folder with nothing to list is said to be empty.
pub proof fn law_empty_folder_is_told()
    ensures
        listing(Seq::<(Seq<char>, bool)>::empty()) == "(empty directory)"@,
{
}

/// A folder that is not there, or cannot be read, is told with its place and the reason.
pub proof fn law_missing_folder_is_told(place: String, reason: String)
    ensures
        occurs(list_observation(FolderLookup::Missing(place)), place@),
        occurs(list_observation(FolderLookup::Failed(place, reason)), place@),
        occurs(list_observation(FolderLookup::Failed(place, reason)), reason@),
{
    lemma_occurs_whole(place@);
    lemma_occurs_behind("Error: directory not found: "@, place@, place@);
    lemma_two_told("Error listing "@, place@, ": "@, reason@);
}

} // verus!
