//! Chunks made of consecutive lines: the ways to cut a text without a syntax tree.
use vstd::prelude::*;

use crate::strings::{
    blank, count_char, count_of, has_prefix, is_blank, join, join_range, lemma_lines_total,
    lemma_pieces_nonempty, lines, pieces, separates, split_lines, starts_with, strip_cr, total_len,
    trim, trim_start, trimmed, trimmed_start, views, Separator,
};
use crate::text::{
    byte_count, byte_len, bytes_of, chars_are, from_chars, lemma_len_le_byte_len, to_chars,
};

verus! {

/// Soft cap on the bytes of a chunk.
pub const MAX_CHUNK_CHARS: usize = 3_500;

/// Below this size a chunk is not closed, even where an item starts.
pub const MIN_SPLIT_CHARS: usize = 800;

/// How many lines two consecutive chunks may share, so that what straddles a cut stands whole
/// in one of them.
pub const OVERLAP_LINES: usize = 2;

/// How many lines back from the cap a good place to cut is looked for.
pub const BREAK_WINDOW: usize = 15;

/// A piece of a source text, with the numbers of its first and last line, counted from one.
#[derive(Debug, Clone, PartialEq)]
pub struct CodeChunk {
    pub content: String,
    pub start_line: usize,
    pub end_line: usize,
}

/// What a chunk holds.
#[verifier::ext_equal]
pub struct ChunkText {
    pub content: Seq<char>,
    pub start_line: int,
    pub end_line: int,
}

impl View for CodeChunk {
    type V = ChunkText;

    open spec fn view(&self) -> ChunkText {
        ChunkText {
            content: self.content@,
            start_line: self.start_line as int,
            end_line: self.end_line as int,
        }
    }
}

/// What a list of chunks holds.
pub open spec fn chunk_texts(v: Seq<CodeChunk>) -> Seq<ChunkText> {
    v.map_values(|c: CodeChunk| c@)
}

pub(crate) proof fn lemma_chunk_texts_push(v: Seq<CodeChunk>, c: CodeChunk)
    ensures
        chunk_texts(v.push(c)) == chunk_texts(v).push(c@),
{
    assert(chunk_texts(v.push(c)) =~= chunk_texts(v).push(c@));
}

// ---------------------------------------------------------------------------------------------
// Cuts
// ---------------------------------------------------------------------------------------------
/// Lines `from` to `to`, both included, joined by line feeds.
pub open spec fn line_span(ls: Seq<Seq<char>>, from: int, to: int) -> Seq<char> {
    join(ls.subrange(from, to + 1), "\n"@)
}

/// `out` and the chunk of lines `cut.0` to `cut.1`, unless these are blank. Line zero of the
/// list has the number `base`.
pub open spec fn push_cut(
    out: Seq<ChunkText>,
    ls: Seq<Seq<char>>,
    cut: (int, int),
    base: int,
) -> Seq<ChunkText> {
    let text = line_span(ls, cut.0, cut.1);
    if is_blank(text) {
        out
    } else {
        out.push(
            ChunkText { content: text, start_line: base + cut.0, end_line: base + cut.1 },
        )
    }
}

/// The chunks of a list of cuts.
pub open spec fn cut_chunks(ls: Seq<Seq<char>>, cuts: Seq<(int, int)>, base: int) -> Seq<ChunkText>
    decreases cuts.len(),
{
    if cuts.len() == 0 {
        Seq::<ChunkText>::empty()
    } else {
        push_cut(cut_chunks(ls, cuts.drop_last(), base), ls, cuts.last(), base)
    }
}

/// Adds the chunk of lines `start_idx` to `end_idx`, as far as there are such lines, unless
/// they are blank.
pub fn push_offset_chunk(
    ls: &Vec<&[char]>,
    start_idx: usize,
    end_idx: usize,
    base_line: usize,
    out: &mut Vec<CodeChunk>,
)
    requires
        base_line + ls@.len() <= usize::MAX + 1,
    ensures
        chunk_texts(final(out)@) == if start_idx > end_idx || start_idx >= ls@.len() {
            chunk_texts(old(out)@)
        } else {
            push_cut(
                chunk_texts(old(out)@),
                views(ls@),
                (
                    start_idx as int,
                    if end_idx < ls@.len() {
                        end_idx as int
                    } else {
                        ls@.len() - 1
                    },
                ),
                base_line as int,
            )
        },
{
    if start_idx > end_idx || start_idx >= ls.len() {
        return;
    }
    let last: usize = if end_idx < ls.len() {
        end_idx
    } else {
        ls.len() - 1
    };
    let text = join_range(ls, start_idx, last + 1, "\n");
    if blank(text.as_slice()) {
        return;
    }
    let chunk = CodeChunk {
        content: from_chars(text.as_slice()),
        start_line: base_line + start_idx,
        end_line: base_line + last,
    };
    proof {
        lemma_chunk_texts_push(out@, chunk);
    }
    out.push(chunk);
}

/// The size of lines `from` up to `to`, each with its line feed.
pub open spec fn span_bytes(ls: Seq<Seq<char>>, from: int, to: int) -> nat
    decreases to - from,
{
    if to <= from {
        0
    } else {
        span_bytes(ls, from, to - 1) + byte_len(ls[to - 1]) + 1
    }
}

/// The size of lines `from` up to `to`, each with its line feed, cut off at `usize::MAX`.
pub fn span_size(ls: &Vec<&[char]>, from: usize, to: usize) -> (res: usize)
    requires
        from <= to <= ls@.len(),
    ensures
        span_bytes(views(ls@), from as int, to as int) <= usize::MAX ==> res == span_bytes(
            views(ls@),
            from as int,
            to as int,
        ),
        span_bytes(views(ls@), from as int, to as int) > usize::MAX ==> res == usize::MAX,
{
    let ghost all = views(ls@);
    let mut total: usize = 0;
    for i in from..to
        invariant
            to <= ls@.len(),
            all == views(ls@),
            span_bytes(all, from as int, i as int) <= usize::MAX ==> total == span_bytes(
                all,
                from as int,
                i as int,
            ),
            span_bytes(all, from as int, i as int) > usize::MAX ==> total == usize::MAX,
    {
        assert(all[i as int] == ls@[i as int]@);
        total = total.saturating_add(bytes_of(ls[i])).saturating_add(1);
    }
    total
}

// ---------------------------------------------------------------------------------------------
// Where to cut
// ---------------------------------------------------------------------------------------------
/// Whether a chunk may well end at this line: a blank one, or a closing brace alone on its
/// line where nesting is shallow.
pub open spec fn breaks_well(line: Seq<char>, depth: int) -> bool {
    is_blank(line) || (trim(line) == "}"@ && depth <= 1)
}

/// The last line from `j` down to `low` where a chunk may well end, or `hint` if there is none.
pub open spec fn soft_break_from(
    ls: Seq<Seq<char>>,
    low: int,
    j: int,
    hint: int,
    depth: int,
) -> int
    decreases j + 1 - low,
{
    if j < low {
        hint
    } else if breaks_well(ls[j], depth) {
        j
    } else {
        soft_break_from(ls, low, j - 1, hint, depth)
    }
}

/// The first line that `soft_break` looks at.
pub open spec fn break_window_start(start: int, hint: int) -> int {
    if hint - BREAK_WINDOW > start {
        hint - BREAK_WINDOW
    } else {
        start
    }
}

/// The line to end a chunk at that starts at line `start` and is full at line `hint`.
pub open spec fn soft_break(ls: Seq<Seq<char>>, start: int, hint: int, depth: int) -> int {
    soft_break_from(ls, break_window_start(start, hint), hint, hint, depth)
}

/// The line to end a chunk at lies between its start and the line where it is full.
pub proof fn lemma_soft_break_bounds(
    ls: Seq<Seq<char>>,
    low: int,
    j: int,
    hint: int,
    depth: int,
)
    requires
        low <= hint,
        j <= hint,
    ensures
        low <= soft_break_from(ls, low, j, hint, depth) <= hint,
    decreases j + 1 - low,
{
    if j >= low && !breaks_well(ls[j], depth) {
        lemma_soft_break_bounds(ls, low, j - 1, hint, depth);
    }
}

/// The line to end a chunk at that starts at line `chunk_start` and is full at line `hint_idx`. Where
/// that is before its start, it is line `hint_idx`.
pub fn find_soft_break(
    ls: &Vec<&[char]>,
    chunk_start: usize,
    hint_idx: usize,
    depth_at_hint: i64,
) -> (res: usize)
    requires
        chunk_start <= hint_idx ==> hint_idx < ls@.len(),
    ensures
        res == soft_break(
            views(ls@),
            chunk_start as int,
            hint_idx as int,
            depth_at_hint as int,
        ),
        chunk_start <= hint_idx ==> chunk_start <= res <= hint_idx,
        chunk_start > hint_idx ==> res == hint_idx,
{
    if chunk_start > hint_idx {
        return hint_idx;
    }
    let back: usize = hint_idx.saturating_sub(BREAK_WINDOW);
    let low: usize = if chunk_start < back {
        back
    } else {
        chunk_start
    };
    let ghost all = views(ls@);
    let count = ls.len();
    assert(hint_idx < count);
    let mut j: usize = hint_idx + 1;
    proof {
        lemma_soft_break_bounds(
            all,
            low as int,
            hint_idx as int,
            hint_idx as int,
            depth_at_hint as int,
        );
    }
    while j > low
        invariant
            all == views(ls@),
            chunk_start <= low <= hint_idx < ls@.len(),
            low == break_window_start(chunk_start as int, hint_idx as int),
            low <= j <= hint_idx + 1,
            soft_break_from(
                all,
                low as int,
                hint_idx as int,
                hint_idx as int,
                depth_at_hint as int,
            ) == soft_break_from(all, low as int, j - 1, hint_idx as int, depth_at_hint as int),
        decreases j,
    {
        j = j - 1;
        let line = ls[j];
        assert(all[j as int] == line@);
        if blank(line) {
            return j;
        }
        if depth_at_hint <= 1 && chars_are(trimmed(line), "}") {
            return j;
        }
    }
    hint_idx
}

/// By how much a line changes the nesting depth.
pub open spec fn brace_delta(line: Seq<char>) -> int {
    count_char(line, '{') - count_char(line, '}')
}

proof fn lemma_total_len_take(parts: Seq<Seq<char>>, k: int)
    requires
        0 <= k < parts.len(),
    ensures
        total_len(parts.take(k + 1)) == total_len(parts.take(k)) + parts[k].len(),
        total_len(parts.take(k + 1)) <= total_len(parts),
    decreases parts.len() - k,
{
    assert(parts.take(k + 1).drop_last() =~= parts.take(k));
    if k + 1 < parts.len() {
        lemma_total_len_take(parts, k + 1);
    } else {
        assert(parts.take(k + 1) =~= parts);
    }
}

/// The depth after a line.
fn next_depth(depth: i64, line: &[char], Ghost(total): Ghost<nat>) -> (res: i64)
    requires
        -(total as int) <= depth <= total,
        total + line@.len() <= isize::MAX,
    ensures
        res == depth + brace_delta(line@),
        -(total + line@.len()) <= res <= total + line@.len(),
{
    let opened = count_of(line, '{');
    let closed = count_of(line, '}');
    depth + opened as i64 - closed as i64
}

// ---------------------------------------------------------------------------------------------
// Splitting an oversized text
// ---------------------------------------------------------------------------------------------
/// How far a split by size has come.
#[verifier::ext_equal]
pub struct SoftSplit {
    /// The first line of the open chunk.
    pub start: int,
    /// The nesting depth before the next line.
    pub depth: int,
    /// The chunks closed so far, as first and last line.
    pub cuts: Seq<(int, int)>,
}

/// The start of the chunk after one of lines `start` to `end`.
pub open spec fn start_after(start: int, end: int) -> int {
    if end - OVERLAP_LINES > start {
        end - OVERLAP_LINES + 1
    } else {
        start + 1
    }
}

/// Line `i` read: the open chunk is closed when it has grown over the cap.
pub open spec fn soft_step(ls: Seq<Seq<char>>, st: SoftSplit, i: int) -> SoftSplit {
    let depth = st.depth + brace_delta(ls[i]);
    if span_bytes(ls, st.start, i + 1) > MAX_CHUNK_CHARS && i > st.start {
        let end = soft_break(ls, st.start, i, st.depth);
        SoftSplit { start: start_after(st.start, end), depth, cuts: st.cuts.push((st.start, end)) }
    } else {
        SoftSplit { start: st.start, depth, cuts: st.cuts }
    }
}

/// The first `n` lines read.
pub open spec fn soft_run(ls: Seq<Seq<char>>, n: int) -> SoftSplit
    decreases n,
{
    if n <= 0 {
        SoftSplit { start: 0, depth: 0, cuts: Seq::<(int, int)>::empty() }
    } else {
        soft_step(ls, soft_run(ls, n - 1), n - 1)
    }
}

/// All lines read, and what is still open closed.
pub open spec fn soft_cuts(ls: Seq<Seq<char>>) -> Seq<(int, int)> {
    let st = soft_run(ls, ls.len() as int);
    if st.start < ls.len() {
        st.cuts.push((st.start, ls.len() - 1))
    } else {
        st.cuts
    }
}

/// The chunks of a text that is too large for one, split by size at good places. Its first
/// line has the number `base`.
pub open spec fn soft_split(text: Seq<char>, base: int) -> Seq<ChunkText> {
    cut_chunks(lines(text), soft_cuts(lines(text)), base)
}

/// While line `i` is read, the open chunk starts at or before it.
pub proof fn lemma_soft_run_start(ls: Seq<Seq<char>>, n: int)
    requires
        0 <= n <= ls.len(),
    ensures
        0 <= soft_run(ls, n).start <= n,
    decreases n,
{
    if n > 0 {
        let st = soft_run(ls, n - 1);
        lemma_soft_run_start(ls, n - 1);
        lemma_soft_break_bounds(
            ls,
            break_window_start(st.start, n - 1),
            n - 1,
            n - 1,
            st.depth,
        );
    }
}

/// Splits a text that is too large for one chunk by size, preferring blank lines and closing
/// braces as the places to cut.
pub fn soft_split_by_braces(text: &str, base_line: usize) -> (res: Vec<CodeChunk>)
    requires
        base_line + lines(text@).len() <= usize::MAX + 1,
    ensures
        chunk_texts(res@) == soft_split(text@, base_line as int),
{
    let chars = to_chars(text);
    let _size = byte_count(text);
    let ls = split_lines(chars.as_slice());
    let ghost all = views(ls@);
    proof {
        lemma_lines_total(text@);
        lemma_len_le_byte_len(text@);
    }
    let mut out: Vec<CodeChunk> = Vec::new();
    let mut start: usize = 0;
    let mut depth: i64 = 0;
    proof {
        assert(chunk_texts(out@) =~= Seq::<ChunkText>::empty());
        assert(total_len(all.take(0)) == 0);
    }
    for i in 0..ls.len()
        invariant
            all == views(ls@),
            base_line + ls@.len() <= usize::MAX + 1,
            ls@.len() <= isize::MAX,
            total_len(all) <= isize::MAX,
            start <= i,
            start == soft_run(all, i as int).start,
            depth == soft_run(all, i as int).depth,
            -(total_len(all.take(i as int)) as int) <= depth <= total_len(all.take(i as int)),
            chunk_texts(out@) == cut_chunks(all, soft_run(all, i as int).cuts, base_line as int),
    {
        let line = ls[i];
        assert(all[i as int] == line@);
        let ghost st = soft_run(all, i as int);
        proof {
            lemma_total_len_take(all, i as int);
        }
        let size = span_size(&ls, start, i + 1);
        if size > MAX_CHUNK_CHARS && i > start {
            let end = find_soft_break(&ls, start, i, depth);
            push_offset_chunk(&ls, start, end, base_line, &mut out);
            proof {
                assert(st.cuts.push((st.start, end as int)).drop_last() =~= st.cuts);
            }
            let back: usize = end.saturating_sub(OVERLAP_LINES);
            start = (if back > start {
                back
            } else {
                start
            }) + 1;
        }
        depth = next_depth(depth, line, Ghost(total_len(all.take(i as int))));
    }
    if start < ls.len() {
        let ghost st = soft_run(all, ls@.len() as int);
        proof {
            assert(st.cuts.push((st.start, ls@.len() - 1)).drop_last() =~= st.cuts);
        }
        let last: usize = ls.len() - 1;
        push_offset_chunk(&ls, start, last, base_line, &mut out);
    }
    out
}

// ---------------------------------------------------------------------------------------------
// Any text
// ---------------------------------------------------------------------------------------------
/// Whether a line, its indentation taken off, starts like a comment.
pub open spec fn comment_like(trimmed: Seq<char>) -> bool {
    ||| has_prefix(trimmed, "//"@)
    ||| has_prefix(trimmed, "#"@)
    ||| has_prefix(trimmed, "/*"@)
    ||| has_prefix(trimmed, "*"@)
    ||| has_prefix(trimmed, "'''"@)
    ||| has_prefix(trimmed, "\"\"\""@)
}

/// Whether a line, its indentation taken off, starts like a comment.
pub fn is_comment_like(trimmed: &[char]) -> (res: bool)
    ensures
        res == comment_like(trimmed@),
{
    starts_with(trimmed, "//") || starts_with(trimmed, "#") || starts_with(trimmed, "/*")
        || starts_with(trimmed, "*") || starts_with(trimmed, "'''") || starts_with(
        trimmed,
        "\"\"\"",
    )
}

/// Whether a line, its indentation taken off, starts like a declaration.
pub open spec fn declaration_like(trimmed: Seq<char>) -> bool {
    ||| has_prefix(trimmed, "pub "@)
    ||| has_prefix(trimmed, "fn "@)
    ||| has_prefix(trimmed, "async fn "@)
    ||| has_prefix(trimmed, "struct "@)
    ||| has_prefix(trimmed, "enum "@)
    ||| has_prefix(trimmed, "impl "@)
    ||| has_prefix(trimmed, "class "@)
    ||| has_prefix(trimmed, "def "@)
    ||| has_prefix(trimmed, "function "@)
    ||| has_prefix(trimmed, "interface "@)
    ||| has_prefix(trimmed, "trait "@)
    ||| has_prefix(trimmed, "type "@)
    ||| has_prefix(trimmed, "namespace "@)
    ||| has_prefix(trimmed, "mod "@)
    ||| has_prefix(trimmed, "match "@)
    ||| has_prefix(trimmed, "public "@)
    ||| has_prefix(trimmed, "private "@)
    ||| has_prefix(trimmed, "protected "@)
    ||| has_prefix(trimmed, "static "@)
}

/// Whether a line, its indentation taken off, starts like a declaration.
pub fn is_declaration_like(trimmed: &[char]) -> (res: bool)
    ensures
        res == declaration_like(trimmed@),
{
    starts_with(trimmed, "pub ") || starts_with(trimmed, "fn ") || starts_with(
        trimmed,
        "async fn ",
    ) || starts_with(trimmed, "struct ") || starts_with(trimmed, "enum ") || starts_with(
        trimmed,
        "impl ",
    ) || starts_with(trimmed, "class ") || starts_with(trimmed, "def ") || starts_with(
        trimmed,
        "function ",
    ) || starts_with(trimmed, "interface ") || starts_with(trimmed, "trait ") || starts_with(
        trimmed,
        "type ",
    ) || starts_with(trimmed, "namespace ") || starts_with(trimmed, "mod ") || starts_with(
        trimmed,
        "match ",
    ) || starts_with(trimmed, "public ") || starts_with(trimmed, "private ") || starts_with(
        trimmed,
        "protected ",
    ) || starts_with(trimmed, "static ")
}

/// How far the scan of a text of no known grammar has come.
#[verifier::ext_equal]
pub struct LineScan {
    /// The first line of the open chunk.
    pub start: int,
    /// The first line of the comment in front of the next line, if there is one.
    pub trivia: Option<int>,
    /// The nesting depth before the next line.
    pub depth: int,
    /// The least nesting depth since the open chunk was started.
    pub min_depth: int,
    /// The chunks closed so far, as first and last line.
    pub cuts: Seq<(int, int)>,
}

/// Where the comment starts that line `i` ends, or that line `i` follows.
pub open spec fn trivia_at(ls: Seq<Seq<char>>, st: LineScan, i: int) -> Option<int> {
    let trimmed = trim_start(ls[i]);
    if comment_like(trimmed) && st.trivia is None && ls[i] != ls[st.start] {
        Some(i)
    } else if !comment_like(trimmed) && trimmed.len() > 0 {
        None
    } else {
        st.trivia
    }
}

/// Whether line `i` starts a declaration that is nested no deeper than the open chunk.
pub open spec fn starts_item(ls: Seq<Seq<char>>, st: LineScan, i: int) -> bool {
    declaration_like(trim_start(ls[i])) && st.depth <= st.min_depth && i > st.start
}

/// What is open after line `i` was looked at, and before its braces are counted. The open
/// chunk ends in front of a declaration, and of the comment in front of it, once it is large
/// enough; and at a good place once it has grown over the cap.
pub open spec fn scan_cut(ls: Seq<Seq<char>>, st: LineScan, i: int) -> LineScan {
    let trivia = trivia_at(ls, st, i);
    let size = span_bytes(ls, st.start, i);
    let kept = LineScan { trivia, ..st };
    if starts_item(ls, st, i) && size >= MIN_SPLIT_CHARS {
        let at = match trivia {
            Some(k) => k,
            None => i,
        };
        if at > st.start {
            LineScan {
                start: if at - OVERLAP_LINES > st.start {
                    at - OVERLAP_LINES
                } else {
                    st.start
                },
                trivia: None,
                depth: st.depth,
                min_depth: st.depth,
                cuts: st.cuts.push((st.start, at - 1)),
            }
        } else {
            kept
        }
    } else if size > MAX_CHUNK_CHARS {
        let at = soft_break(ls, st.start, i, st.depth);
        if at > st.start {
            LineScan {
                start: start_after(st.start, at),
                trivia: None,
                depth: st.depth,
                min_depth: st.depth,
                cuts: st.cuts.push((st.start, at)),
            }
        } else {
            kept
        }
    } else {
        kept
    }
}

/// Line `i` read.
pub open spec fn scan_step(ls: Seq<Seq<char>>, st: LineScan, i: int) -> LineScan {
    let cut = scan_cut(ls, st, i);
    let depth = st.depth + brace_delta(ls[i]);
    LineScan {
        depth,
        min_depth: if depth < cut.min_depth {
            depth
        } else {
            cut.min_depth
        },
        ..cut
    }
}

/// The first `n` lines read.
pub open spec fn scan_run(ls: Seq<Seq<char>>, n: int) -> LineScan
    decreases n,
{
    if n <= 0 {
        LineScan {
            start: 0,
            trivia: None,
            depth: 0,
            min_depth: 0,
            cuts: Seq::<(int, int)>::empty(),
        }
    } else {
        scan_step(ls, scan_run(ls, n - 1), n - 1)
    }
}

/// All lines read, and what is still open closed.
pub open spec fn scan_cuts(ls: Seq<Seq<char>>) -> Seq<(int, int)> {
    let st = scan_run(ls, ls.len() as int);
    if st.start < ls.len() {
        st.cuts.push((st.start, ls.len() - 1))
    } else {
        st.cuts
    }
}

/// The chunks of a text of no known grammar.
pub open spec fn fallback(content: Seq<char>) -> Seq<ChunkText> {
    let ls = lines(content);
    let whole = ChunkText { content, start_line: 1, end_line: ls.len() as int };
    if ls.len() == 0 {
        seq![ChunkText { content: Seq::<char>::empty(), start_line: 1, end_line: 1 }]
    } else if byte_len(content) <= MAX_CHUNK_CHARS {
        seq![whole]
    } else {
        let chunks = cut_chunks(ls, scan_cuts(ls), 1);
        if chunks.len() == 0 {
            seq![whole]
        } else {
            chunks
        }
    }
}

/// The open chunk starts at or before the next line, and the comment in front of that lies
/// before it.
pub proof fn lemma_scan_run_bounds(ls: Seq<Seq<char>>, n: int)
    requires
        0 <= n <= ls.len(),
    ensures
        0 <= scan_run(ls, n).start <= n,
        n > 0 ==> scan_run(ls, n).start < n,
        scan_run(ls, n).trivia matches Some(k) ==> 0 <= k < n,
    decreases n,
{
    if n > 0 {
        let st = scan_run(ls, n - 1);
        lemma_scan_run_bounds(ls, n - 1);
        lemma_soft_break_bounds(
            ls,
            break_window_start(st.start, n - 1),
            n - 1,
            n - 1,
            st.depth,
        );
    }
}

/// Whether two slices hold the same characters.
fn same_chars(a: &[char], b: &[char]) -> (res: bool)
    ensures
        res == (a@ == b@),
{
    if a.len() != b.len() {
        return false;
    }
    for i in 0..a.len()
        invariant
            a@.len() == b@.len(),
            forall|k: int| 0 <= k < i ==> a@[k] == b@[k],
    {
        if a[i] != b[i] {
            return false;
        }
    }
    assert(a@ =~= b@);
    true
}

/// A list with the one chunk given.
fn one_chunk(content: String, end_line: usize) -> (res: Vec<CodeChunk>)
    ensures
        chunk_texts(res@) == seq![
            ChunkText { content: content@, start_line: 1, end_line: end_line as int },
        ],
{
    let mut out: Vec<CodeChunk> = Vec::new();
    out.push(CodeChunk { content, start_line: 1, end_line });
    assert(chunk_texts(out@) =~= seq![
        ChunkText { content: content@, start_line: 1, end_line: end_line as int },
    ]);
    out
}

/// Cuts a text of no known grammar into chunks: in front of declarations, or else by size.
pub fn chunk_generic_fallback(content: &str) -> (res: Vec<CodeChunk>)
    ensures
        chunk_texts(res@) == fallback(content@),
        res@.len() >= 1,
{
    let chars = to_chars(content);
    let size = byte_count(content);
    let ls = split_lines(chars.as_slice());
    let ghost all = views(ls@);
    let count = ls.len();
    proof {
        lemma_lines_total(content@);
        lemma_len_le_byte_len(content@);
    }
    if count == 0 {
        return one_chunk(String::new(), 1);
    }
    if size <= MAX_CHUNK_CHARS {
        return one_chunk(from_chars(chars.as_slice()), count);
    }
    let mut out: Vec<CodeChunk> = Vec::new();
    let mut start: usize = 0;
    let mut trivia: Option<usize> = None;
    let mut depth: i64 = 0;
    let mut min_depth: i64 = 0;
    proof {
        assert(chunk_texts(out@) =~= Seq::<ChunkText>::empty());
        assert(total_len(all.take(0)) == 0);
    }
    for i in 0..count
        invariant
            all == views(ls@),
            count == ls@.len(),
            ls@.len() <= isize::MAX,
            total_len(all) <= isize::MAX,
            start <= i,
            start == scan_run(all, i as int).start,
            depth == scan_run(all, i as int).depth,
            min_depth == scan_run(all, i as int).min_depth,
            match trivia {
                Some(k) => scan_run(all, i as int).trivia == Some(k as int) && k < i,
                None => scan_run(all, i as int).trivia is None,
            },
            -(total_len(all.take(i as int)) as int) <= depth <= total_len(all.take(i as int)),
            chunk_texts(out@) == cut_chunks(all, scan_run(all, i as int).cuts, 1),
    {
        let line = ls[i];
        assert(all[i as int] == line@);
        assert(all[start as int] == ls@[start as int]@);
        let ghost st = scan_run(all, i as int);
        proof {
            lemma_total_len_take(all, i as int);
            lemma_scan_run_bounds(all, i + 1);
        }
        let text = trimmed_start(line);
        let comment = is_comment_like(text);
        if comment && trivia.is_none() && !same_chars(line, ls[start]) {
            trivia = Some(i);
        } else if !comment && text.len() > 0 {
            trivia = None;
        }
        let candidate = is_declaration_like(text) && depth <= min_depth && i > start;
        let open_size = span_size(&ls, start, i);
        if candidate && open_size >= MIN_SPLIT_CHARS {
            let at: usize = match trivia {
                Some(k) => k,
                None => i,
            };
            if at > start {
                push_offset_chunk(&ls, start, at - 1, 1, &mut out);
                proof {
                    assert(st.cuts.push((st.start, at - 1)).drop_last() =~= st.cuts);
                }
                let back: usize = at.saturating_sub(OVERLAP_LINES);
                start = if back > start {
                    back
                } else {
                    start
                };
                min_depth = depth;
                trivia = None;
            }
        } else if open_size > MAX_CHUNK_CHARS {
            let at = find_soft_break(&ls, start, i, depth);
            if at > start {
                push_offset_chunk(&ls, start, at, 1, &mut out);
                proof {
                    assert(st.cuts.push((st.start, at as int)).drop_last() =~= st.cuts);
                }
                let back: usize = at.saturating_sub(OVERLAP_LINES);
                start = (if back > start {
                    back
                } else {
                    start
                }) + 1;
                min_depth = depth;
                trivia = None;
            }
        }
        depth = next_depth(depth, line, Ghost(total_len(all.take(i as int))));
        if depth < min_depth {
            min_depth = depth;
        }
    }
    proof {
        lemma_scan_run_bounds(all, count as int);
    }
    if start < count {
        let ghost st = scan_run(all, count as int);
        proof {
            assert(st.cuts.push((st.start, count - 1)).drop_last() =~= st.cuts);
        }
        push_offset_chunk(&ls, start, count - 1, 1, &mut out);
    }
    if out.len() == 0 {
        return one_chunk(from_chars(chars.as_slice()), count);
    }
    out
}

// ---------------------------------------------------------------------------------------------
// What holds of every split
// ---------------------------------------------------------------------------------------------
proof fn lemma_blank_parts(parts: Seq<Seq<char>>, sep: Seq<char>, k: int)
    requires
        is_blank(join(parts, sep)),
        0 <= k < parts.len(),
    ensures
        is_blank(parts[k]),
    decreases parts.len(),
{
    let whole = join(parts, sep);
    let head = parts.drop_last();
    if head.len() > 0 {
        let front = join(head, sep) + sep;
        assert forall|i: int| 0 <= i < parts.last().len() implies is_ws_at(parts.last(), i) by {
            assert(whole[front.len() + i] == parts.last()[i]);
        }
        if k < head.len() {
            assert forall|i: int| 0 <= i < join(head, sep).len() implies is_ws_at(
                join(head, sep),
                i,
            ) by {
                assert(whole[i] == join(head, sep)[i]);
            }
            lemma_blank_from_positions(join(head, sep));
            lemma_blank_parts(head, sep, k);
            assert(head[k] == parts[k]);
        } else {
            lemma_blank_from_positions(parts.last());
        }
    }
}

spec fn is_ws_at(s: Seq<char>, i: int) -> bool {
    crate::text::is_ws(s[i])
}

proof fn lemma_blank_from_positions(s: Seq<char>)
    requires
        forall|i: int| 0 <= i < s.len() ==> is_ws_at(s, i),
    ensures
        is_blank(s),
{
    assert forall|i: int| 0 <= i < s.len() implies crate::text::is_ws(#[trigger] s[i]) by {
        assert(is_ws_at(s, i));
    }
}

/// Whether `chunk` is the run of lines that its line numbers say, line zero being `base`.
pub open spec fn spans_its_lines(ls: Seq<Seq<char>>, base: int, chunk: ChunkText) -> bool {
    &&& base <= chunk.start_line <= chunk.end_line < base + ls.len()
    &&& chunk.content == line_span(ls, chunk.start_line - base, chunk.end_line - base)
    &&& !is_blank(chunk.content)
}

/// Whether the cuts are spans of `n` lines in which each starts no later than right behind the
/// one before it, and shares with it no more than `OVERLAP_LINES` lines.
pub open spec fn cuts_in_order(cuts: Seq<(int, int)>, n: int) -> bool {
    &&& forall|a: int| 0 <= a < cuts.len() ==> 0 <= (#[trigger] cuts[a]).0 <= cuts[a].1 < n
    &&& forall|a: int|
        0 < a < cuts.len() ==> cuts[a - 1].1 + 1 - OVERLAP_LINES <= (#[trigger] cuts[a]).0
            <= cuts[a - 1].1 + 1
}

/// Whether every line before line `n` lies in a cut.
pub open spec fn cuts_cover(cuts: Seq<(int, int)>, n: int) -> bool {
    forall|k: int| #![trigger in_some_cut(cuts, k)] 0 <= k < n ==> in_some_cut(cuts, k)
}

/// Whether line `k` lies in a cut.
pub open spec fn in_some_cut(cuts: Seq<(int, int)>, k: int) -> bool {
    exists|a: int| 0 <= a < cuts.len() && (#[trigger] cuts[a]).0 <= k <= cuts[a].1
}

proof fn lemma_cover_push(cuts: Seq<(int, int)>, start: int, end: int, next: int, n: int)
    requires
        cuts_in_order(cuts, n),
        cuts_cover(cuts, start),
        0 <= start <= end < n,
        next <= end + 1,
        cuts.len() > 0 ==> cuts.last().1 + 1 - OVERLAP_LINES <= start <= cuts.last().1 + 1,
    ensures
        cuts_in_order(cuts.push((start, end)), n),
        cuts_cover(cuts.push((start, end)), next),
{
    let more = cuts.push((start, end));
    assert forall|k: int| 0 <= k < next implies in_some_cut(more, k) by {
        if k < start {
            assert(in_some_cut(cuts, k));
            let a = choose|a: int|
                0 <= a < cuts.len() && (#[trigger] cuts[a]).0 <= k <= cuts[a].1;
            assert(more[a] == cuts[a]);
        } else {
            assert(more[cuts.len() as int] == (start, end));
        }
    }
    assert forall|a: int| 0 < a < more.len() implies more[a - 1].1 + 1 - OVERLAP_LINES <= (
    #[trigger] more[a]).0 <= more[a - 1].1 + 1 by {
        if a < cuts.len() {
            assert(more[a] == cuts[a] && more[a - 1] == cuts[a - 1]);
        } else {
            assert(more[a - 1] == cuts.last());
        }
    }
}

proof fn lemma_soft_run_covers(ls: Seq<Seq<char>>, n: int)
    requires
        0 <= n <= ls.len(),
    ensures
        ({
            let st = soft_run(ls, n);
            &&& cuts_in_order(st.cuts, ls.len() as int)
            &&& cuts_cover(st.cuts, st.start)
            &&& st.cuts.len() > 0 ==> st.cuts.last().1 + 1 - OVERLAP_LINES <= st.start
                <= st.cuts.last().1 + 1
        }),
    decreases n,
{
    if n > 0 {
        let st = soft_run(ls, n - 1);
        lemma_soft_run_covers(ls, n - 1);
        lemma_soft_run_start(ls, n - 1);
        let end = soft_break(ls, st.start, n - 1, st.depth);
        lemma_soft_break_bounds(
            ls,
            break_window_start(st.start, n - 1),
            n - 1,
            n - 1,
            st.depth,
        );
        if span_bytes(ls, st.start, n) > MAX_CHUNK_CHARS && n - 1 > st.start {
            lemma_cover_push(st.cuts, st.start, end, start_after(st.start, end), ls.len() as int);
        }
    }
}

/// The cuts of a split by size cover every line, in order, with at most the overlap shared.
pub proof fn law_soft_cuts_cover(ls: Seq<Seq<char>>)
    ensures
        cuts_in_order(soft_cuts(ls), ls.len() as int),
        cuts_cover(soft_cuts(ls), ls.len() as int),
{
    let n = ls.len() as int;
    let st = soft_run(ls, n);
    lemma_soft_run_covers(ls, n);
    lemma_soft_run_start(ls, n);
    if st.start < n {
        lemma_cover_push(st.cuts, st.start, n - 1, n, n);
    }
}

proof fn lemma_scan_run_covers(ls: Seq<Seq<char>>, n: int)
    requires
        0 <= n <= ls.len(),
    ensures
        ({
            let st = scan_run(ls, n);
            &&& cuts_in_order(st.cuts, ls.len() as int)
            &&& cuts_cover(st.cuts, st.start)
            &&& st.cuts.len() > 0 ==> st.cuts.last().1 + 1 - OVERLAP_LINES <= st.start
                <= st.cuts.last().1 + 1
        }),
    decreases n,
{
    if n > 0 {
        let i = n - 1;
        let st = scan_run(ls, i);
        lemma_scan_run_covers(ls, i);
        lemma_scan_run_bounds(ls, i);
        lemma_scan_run_bounds(ls, n);
        let at = soft_break(ls, st.start, i, st.depth);
        lemma_soft_break_bounds(ls, break_window_start(st.start, i), i, i, st.depth);
        let trivia = trivia_at(ls, st, i);
        let size = span_bytes(ls, st.start, i);
        let next = scan_cut(ls, st, i).start;
        if starts_item(ls, st, i) && size >= MIN_SPLIT_CHARS {
            let to = match trivia {
                Some(k) => k,
                None => i,
            };
            if to > st.start {
                lemma_cover_push(st.cuts, st.start, to - 1, next, ls.len() as int);
            }
        } else if size > MAX_CHUNK_CHARS && at > st.start {
            lemma_cover_push(st.cuts, st.start, at, next, ls.len() as int);
        }
    }
}

/// The cuts of a text of no known grammar cover every line, in order, with at most the overlap
/// shared.
pub proof fn law_scan_cuts_cover(ls: Seq<Seq<char>>)
    ensures
        cuts_in_order(scan_cuts(ls), ls.len() as int),
        cuts_cover(scan_cuts(ls), ls.len() as int),
{
    let n = ls.len() as int;
    let st = scan_run(ls, n);
    lemma_scan_run_covers(ls, n);
    lemma_scan_run_bounds(ls, n);
    if st.start < n {
        lemma_cover_push(st.cuts, st.start, n - 1, n, n);
    }
}

/// Whether consecutive cuts share lines: at least one, and all `OVERLAP_LINES` where the earlier
/// has more lines than those.
pub open spec fn cuts_share(cuts: Seq<(int, int)>) -> bool {
    forall|a: int|
        0 < a < cuts.len() ==> cuts[a - 1].0 <= (#[trigger] cuts[a]).0 <= cuts[a - 1].1 && (
        cuts[a - 1].1 - cuts[a - 1].0 >= OVERLAP_LINES ==> cuts[a].0 == cuts[a - 1].1 + 1
            - OVERLAP_LINES)
}

/// Whether a cut can follow that starts at line `start`, and shares lines with the last.
spec fn shares_next(cuts: Seq<(int, int)>, start: int) -> bool {
    if cuts.len() == 0 {
        start == 0
    } else {
        &&& cuts[0].0 == 0
        &&& cuts.last().0 <= start <= cuts.last().1
        &&& cuts.last().1 - cuts.last().0 >= OVERLAP_LINES ==> start == cuts.last().1 + 1
            - OVERLAP_LINES
    }
}

proof fn lemma_share_push(cuts: Seq<(int, int)>, start: int, end: int)
    requires
        cuts_share(cuts),
        shares_next(cuts, start),
    ensures
        cuts_share(cuts.push((start, end))),
        cuts.push((start, end))[0].0 == 0,
{
    let more = cuts.push((start, end));
    assert forall|a: int| 0 < a < more.len() implies more[a - 1].0 <= (#[trigger] more[a]).0
        <= more[a - 1].1 && (more[a - 1].1 - more[a - 1].0 >= OVERLAP_LINES ==> more[a].0 == more[a
        - 1].1 + 1 - OVERLAP_LINES) by {
        if a < cuts.len() {
            assert(more[a] == cuts[a] && more[a - 1] == cuts[a - 1]);
        } else {
            assert(more[a - 1] == cuts.last());
        }
    }
}

proof fn lemma_scan_run_shares(ls: Seq<Seq<char>>, n: int)
    requires
        0 <= n <= ls.len(),
    ensures
        cuts_share(scan_run(ls, n).cuts),
        shares_next(scan_run(ls, n).cuts, scan_run(ls, n).start),
    decreases n,
{
    if n > 0 {
        let i = n - 1;
        let st = scan_run(ls, i);
        lemma_scan_run_shares(ls, i);
        lemma_scan_run_bounds(ls, i);
        let at = soft_break(ls, st.start, i, st.depth);
        let size = span_bytes(ls, st.start, i);
        if starts_item(ls, st, i) && size >= MIN_SPLIT_CHARS {
            let to = match trivia_at(ls, st, i) {
                Some(k) => k,
                None => i,
            };
            lemma_share_push(st.cuts, st.start, to - 1);
        } else if size > MAX_CHUNK_CHARS && at > st.start {
            lemma_share_push(st.cuts, st.start, at);
        }
    }
}

/// Whether line `k` and the one behind it lie in a cut together.
pub open spec fn in_one_cut(cuts: Seq<(int, int)>, k: int) -> bool {
    exists|b: int| 0 <= b < cuts.len() && (#[trigger] cuts[b]).0 <= k && k + 1 <= cuts[b].1
}

proof fn lemma_neighbours_together(cuts: Seq<(int, int)>, a: int, k: int)
    requires
        cuts_share(cuts),
        0 <= a < cuts.len(),
        cuts[0].0 == 0,
        0 <= k,
        cuts[a].0 <= k + 1 <= cuts[a].1,
    ensures
        in_one_cut(cuts, k),
    decreases a,
{
    if cuts[a].0 > k {
        assert(cuts[a - 1].0 <= cuts[a].0 <= cuts[a - 1].1);
        lemma_neighbours_together(cuts, a - 1, k);
    }
}

/// Consecutive cuts of a text of no known grammar overlap, so that what straddles a cut stands
/// whole in one of them: any two lines that follow one another lie in a cut together.
pub proof fn law_scan_cuts_overlap(ls: Seq<Seq<char>>)
    ensures
        cuts_share(scan_cuts(ls)),
        forall|k: int|
            0 <= k && k + 1 < ls.len() ==> #[trigger] in_one_cut(scan_cuts(ls), k),
{
    let n = ls.len() as int;
    let st = scan_run(ls, n);
    let cuts = scan_cuts(ls);
    lemma_scan_run_shares(ls, n);
    lemma_scan_run_bounds(ls, n);
    law_scan_cuts_cover(ls);
    if st.start < n {
        lemma_share_push(st.cuts, st.start, n - 1);
    }
    assert forall|k: int| 0 <= k && k + 1 < ls.len() implies #[trigger] in_one_cut(cuts, k) by {
        assert(in_some_cut(cuts, k + 1));
        let a = choose|a: int|
            0 <= a < cuts.len() && (#[trigger] cuts[a]).0 <= k + 1 <= cuts[a].1;
        lemma_neighbours_together(cuts, a, k);
    }
}

/// Whether a chunk holds the line of number `line`.
pub open spec fn some_chunk_has_line(chunks: Seq<ChunkText>, line: int) -> bool {
    exists|c: int|
        0 <= c < chunks.len() && (#[trigger] chunks[c]).start_line <= line <= chunks[c].end_line
}

proof fn lemma_cut_chunks(ls: Seq<Seq<char>>, cuts: Seq<(int, int)>, base: int)
    requires
        forall|a: int|
            0 <= a < cuts.len() ==> 0 <= (#[trigger] cuts[a]).0 <= cuts[a].1 < ls.len(),
    ensures
        forall|c: int|
            0 <= c < cut_chunks(ls, cuts, base).len() ==> spans_its_lines(
                ls,
                base,
                #[trigger] cut_chunks(ls, cuts, base)[c],
            ),
        forall|k: int|
            0 <= k < ls.len() && !is_blank(ls[k]) && #[trigger] in_some_cut(cuts, k)
                ==> some_chunk_has_line(cut_chunks(ls, cuts, base), base + k),
    decreases cuts.len(),
{
    if cuts.len() > 0 {
        let head = cuts.drop_last();
        let cut = cuts.last();
        let before = cut_chunks(ls, head, base);
        let after = cut_chunks(ls, cuts, base);
        assert(cuts[cuts.len() - 1] == cut);
        assert forall|a: int| 0 <= a < head.len() implies 0 <= (#[trigger] head[a]).0 <= head[a].1
            < ls.len() by {
            assert(cuts[a] == head[a]);
        }
        lemma_cut_chunks(ls, head, base);
        let text = line_span(ls, cut.0, cut.1);
        assert forall|c: int| 0 <= c < after.len() implies spans_its_lines(
            ls,
            base,
            #[trigger] after[c],
        ) by {
            if c < before.len() {
                assert(after[c] == before[c]);
            }
        }
        assert forall|k: int|
            0 <= k < ls.len() && !is_blank(ls[k]) && #[trigger] in_some_cut(
                cuts,
                k,
            ) implies some_chunk_has_line(after, base + k) by {
            let a = choose|a: int|
                0 <= a < cuts.len() && (#[trigger] cuts[a]).0 <= k <= cuts[a].1;
            if a < head.len() {
                assert(head[a] == cuts[a]);
                assert(in_some_cut(head, k));
                assert(some_chunk_has_line(before, base + k));
                let c = choose|c: int|
                    0 <= c < before.len() && (#[trigger] before[c]).start_line <= base + k
                        <= before[c].end_line;
                assert(after[c] == before[c]);
            } else {
                let part = ls.subrange(cut.0, cut.1 + 1);
                assert(part[k - cut.0] == ls[k]);
                if is_blank(text) {
                    lemma_blank_parts(part, "\n"@, k - cut.0);
                }
                assert(after[before.len() as int].start_line <= base + k);
            }
        }
    }
}

/// Splitting by size loses nothing: every line that is not blank stands in a chunk, and every
/// chunk is the run of lines that its numbers say.
pub proof fn law_soft_split_keeps_lines(text: Seq<char>, base: int)
    ensures
        forall|k: int|
            0 <= k < lines(text).len() && !is_blank(#[trigger] lines(text)[k])
                ==> some_chunk_has_line(soft_split(text, base), base + k),
        forall|c: int|
            0 <= c < soft_split(text, base).len() ==> spans_its_lines(
                lines(text),
                base,
                #[trigger] soft_split(text, base)[c],
            ),
{
    let ls = lines(text);
    law_soft_cuts_cover(ls);
    lemma_cut_chunks(ls, soft_cuts(ls), base);
    assert forall|k: int| 0 <= k < ls.len() && !is_blank(#[trigger] ls[k]) implies
        some_chunk_has_line(soft_split(text, base), base + k) by {
        assert(in_some_cut(soft_cuts(ls), k));
    }
}

/// Cutting a text of no known grammar loses nothing: every line that is not blank stands in a
/// chunk. There is always a chunk; and where a text is cut at all, every chunk is the run of
/// lines that its numbers say.
pub proof fn law_fallback_keeps_lines(content: Seq<char>)
    ensures
        fallback(content).len() >= 1,
        forall|k: int|
            0 <= k < lines(content).len() && !is_blank(#[trigger] lines(content)[k])
                ==> some_chunk_has_line(fallback(content), k + 1),
        byte_len(content) <= MAX_CHUNK_CHARS && lines(content).len() > 0 ==> fallback(content)
            == seq![
            ChunkText { content, start_line: 1, end_line: lines(content).len() as int },
        ],
        byte_len(content) > MAX_CHUNK_CHARS && !is_blank(content) ==> forall|c: int|
            0 <= c < fallback(content).len() ==> spans_its_lines(
                lines(content),
                1,
                #[trigger] fallback(content)[c],
            ),
{
    let ls = lines(content);
    let cuts = scan_cuts(ls);
    let chunks = cut_chunks(ls, cuts, 1);
    law_scan_cuts_cover(ls);
    lemma_cut_chunks(ls, cuts, 1);
    assert forall|k: int| 0 <= k < ls.len() && !is_blank(#[trigger] ls[k]) implies
        some_chunk_has_line(fallback(content), k + 1) by {
        assert(in_some_cut(cuts, k));
        assert(some_chunk_has_line(chunks, 1 + k));
        if byte_len(content) <= MAX_CHUNK_CHARS {
            assert(fallback(content)[0].end_line == ls.len());
        } else if chunks.len() > 0 {
            assert(fallback(content) == chunks);
        }
    }
    if !is_blank(content) && byte_len(content) > MAX_CHUNK_CHARS {
        lemma_some_line_not_blank(content);
        let k = choose|k: int| 0 <= k < ls.len() && !is_blank(#[trigger] ls[k]);
        assert(some_chunk_has_line(chunks, 1 + k)) by {
            assert(in_some_cut(cuts, k));
        }
    }
}

/// A text that is not blank has a line that is not blank.
pub proof fn lemma_some_line_not_blank(s: Seq<char>)
    requires
        !is_blank(s),
    ensures
        exists|k: int| 0 <= k < lines(s).len() && !is_blank(#[trigger] lines(s)[k]),
{
    let parts = pieces(s, Separator::Newline);
    lemma_some_piece_not_blank(s);
    lemma_pieces_nonempty(s, Separator::Newline);
    let k = choose|k: int| 0 <= k < parts.len() && !is_blank(#[trigger] parts[k]);
    if k == parts.len() - 1 {
        assert(lines(s)[k] == parts[k]);
    } else {
        assert(lines(s)[k] == strip_cr(parts[k]));
        let i = choose|i: int| 0 <= i < parts[k].len() && !crate::text::is_ws(#[trigger] parts[k][i]);
        assert(lines(s)[k][i] == parts[k][i]);
    }
}

proof fn lemma_some_piece_not_blank(s: Seq<char>)
    requires
        !is_blank(s),
    ensures
        exists|k: int|
            0 <= k < pieces(s, Separator::Newline).len() && !is_blank(
                #[trigger] pieces(s, Separator::Newline)[k],
            ),
    decreases s.len(),
{
    let sep = Separator::Newline;
    let before = pieces(s.drop_last(), sep);
    let parts = pieces(s, sep);
    lemma_pieces_nonempty(s.drop_last(), sep);
    let n = before.len() - 1;
    if is_blank(s.drop_last()) {
        assert(!crate::text::is_ws(s.last())) by {
            let i = choose|i: int| 0 <= i < s.len() && !crate::text::is_ws(#[trigger] s[i]);
            if i < s.len() - 1 {
                assert(s.drop_last()[i] == s[i]);
            }
        }
        assert(parts[n][before[n].len() as int] == s.last());
        assert(!is_blank(parts[n]));
    } else {
        lemma_some_piece_not_blank(s.drop_last());
        let k = choose|k: int| 0 <= k < before.len() && !is_blank(#[trigger] before[k]);
        if k < n || separates(sep, s.last()) {
            assert(parts[k] == before[k]);
        } else {
            let i = choose|i: int|
                0 <= i < before[k].len() && !crate::text::is_ws(#[trigger] before[k][i]);
            assert(parts[k][i] == before[k][i]);
            assert(!is_blank(parts[k]));
        }
    }
}

} // verus!
