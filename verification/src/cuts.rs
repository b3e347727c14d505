//! What holds of the cuts through a text: where they fall, and what stands between them.
use vstd::prelude::*;

use crate::line_chunks::{
    break_window_start, breaks_well, comment_like, cuts_share, declaration_like, fallback,
    law_fallback_keeps_lines, law_scan_cuts_overlap,
    law_soft_split_keeps_lines, lemma_scan_run_bounds, lemma_soft_break_bounds,
    lemma_soft_run_start, lemma_some_line_not_blank, scan_cuts, scan_run, scan_step, soft_break,
    soft_break_from, soft_cuts, soft_run, soft_split, span_bytes, spans_its_lines, trivia_at,
    ChunkText, LineScan,
};
use crate::strings::{is_blank, join, lemma_count_is_filter, lines, trim, trim_start};
use crate::text::byte_len;

verus! {

proof fn lemma_soft_break_is_last(ls: Seq<Seq<char>>, low: int, j: int, hint: int, depth: int)
    requires
        low <= hint,
        j <= hint,
    ensures
        ({
            let r = soft_break_from(ls, low, j, hint, depth);
            &&& (exists|k: int|
                low <= k <= j && (is_blank(#[trigger] ls[k]) || (depth <= 1 && trim(ls[k])
                    == "}"@))) ==> {
                &&& low <= r <= j
                &&& is_blank(ls[r]) || (depth <= 1 && trim(ls[r]) == "}"@)
                &&& forall|k: int|
                    r < k <= j ==> !(is_blank(#[trigger] ls[k]) || (depth <= 1 && trim(ls[k])
                        == "}"@))
            }
            &&& !(exists|k: int|
                low <= k <= j && (is_blank(#[trigger] ls[k]) || (depth <= 1 && trim(ls[k])
                    == "}"@))) ==> r == hint
        }),
    decreases j + 1 - low,
{
    if j >= low && !breaks_well(ls[j], depth) {
        lemma_soft_break_is_last(ls, low, j - 1, hint, depth);
        if exists|k: int|
            low <= k <= j && (is_blank(#[trigger] ls[k]) || (depth <= 1 && trim(ls[k]) == "}"@)) {
            let k = choose|k: int|
                low <= k <= j && (is_blank(#[trigger] ls[k]) || (depth <= 1 && trim(ls[k])
                    == "}"@));
            assert(k <= j - 1);
        }
    }
}

/// A full chunk ends at the last good place among its last lines, fifteen lines back at most: a blank
/// line, or a closing brace alone on its line where nesting is shallow. Where there is none, it ends
/// where it is full.
pub proof fn law_chunks_end_at_good_places(
    ls: Seq<Seq<char>>,
    start: int,
    hint: int,
    depth: int,
)
    requires
        0 <= start <= hint < ls.len(),
    ensures
        ({
            let low = if hint - 15 > start {
                hint - 15
            } else {
                start
            };
            let r = soft_break(ls, start, hint, depth);
            &&& (exists|k: int|
                low <= k <= hint && (is_blank(#[trigger] ls[k]) || (depth <= 1 && trim(ls[k])
                    == "}"@))) ==> {
                &&& low <= r <= hint
                &&& is_blank(ls[r]) || (depth <= 1 && trim(ls[r]) == "}"@)
                &&& forall|k: int|
                    r < k <= hint ==> !(is_blank(#[trigger] ls[k]) || (depth <= 1 && trim(ls[k])
                        == "}"@))
            }
            &&& !(exists|k: int|
                low <= k <= hint && (is_blank(#[trigger] ls[k]) || (depth <= 1 && trim(ls[k])
                    == "}"@))) ==> r == hint
        }),
{
    lemma_soft_break_is_last(ls, break_window_start(start, hint), hint, hint, depth);
}

/// Whether each cut goes back over the last two lines of the one before it, or, where that has no
/// more than three lines, starts on its second.
pub open spec fn cuts_step_back(cuts: Seq<(int, int)>) -> bool {
    forall|a: int|
        0 < a < cuts.len() ==> (#[trigger] cuts[a]).0 == if cuts[a - 1].1 - 2 > cuts[a - 1].0 {
            cuts[a - 1].1 - 1
        } else {
            cuts[a - 1].0 + 1
        }
}

proof fn lemma_soft_run_steps_back(ls: Seq<Seq<char>>, n: int)
    requires
        0 <= n <= ls.len(),
    ensures
        ({
            let st = soft_run(ls, n);
            &&& cuts_step_back(st.cuts)
            &&& st.cuts.len() == 0 ==> st.start == 0
            &&& st.cuts.len() > 0 ==> st.cuts[0].0 == 0 && st.start == if st.cuts.last().1 - 2
                > st.cuts.last().0 {
                st.cuts.last().1 - 1
            } else {
                st.cuts.last().0 + 1
            }
        }),
    decreases n,
{
    if n > 0 {
        lemma_soft_run_steps_back(ls, n - 1);
        let st = soft_run(ls, n - 1);
        let now = soft_run(ls, n);
        assert forall|a: int| 0 < a < now.cuts.len() implies (#[trigger] now.cuts[a]).0
            == if now.cuts[a - 1].1 - 2 > now.cuts[a - 1].0 {
            now.cuts[a - 1].1 - 1
        } else {
            now.cuts[a - 1].0 + 1
        } by {
            if a < st.cuts.len() {
                assert(now.cuts[a] == st.cuts[a] && now.cuts[a - 1] == st.cuts[a - 1]);
            } else {
                assert(now.cuts[a - 1] == st.cuts.last());
            }
        }
    }
}

/// A split by size starts at the first line, and each chunk goes back over two lines of the one
/// before it.
pub proof fn law_soft_cuts_step_back(ls: Seq<Seq<char>>)
    ensures
        cuts_step_back(soft_cuts(ls)),
        soft_cuts(ls).len() > 0 ==> soft_cuts(ls)[0].0 == 0,
{
    let n = ls.len() as int;
    lemma_soft_run_steps_back(ls, n);
    let st = soft_run(ls, n);
    let cuts = soft_cuts(ls);
    assert forall|a: int| 0 < a < cuts.len() implies (#[trigger] cuts[a]).0 == if cuts[a - 1].1 - 2
        > cuts[a - 1].0 {
        cuts[a - 1].1 - 1
    } else {
        cuts[a - 1].0 + 1
    } by {
        if a < st.cuts.len() {
            assert(cuts[a] == st.cuts[a] && cuts[a - 1] == st.cuts[a - 1]);
        } else {
            assert(cuts[a - 1] == st.cuts.last());
        }
    }
}

proof fn lemma_small_run(ls: Seq<Seq<char>>, n: int)
    requires
        0 <= n <= ls.len(),
        span_bytes(ls, 0, n) <= 3500,
    ensures
        soft_run(ls, n).start == 0,
        soft_run(ls, n).cuts.len() == 0,
    decreases n,
{
    if n > 0 {
        lemma_small_run(ls, n - 1);
    }
}

/// Lines that one chunk can hold, each with its line feed, are not cut; lines that it cannot are,
/// where there are several.
pub proof fn law_only_large_texts_are_cut(ls: Seq<Seq<char>>)
    requires
        ls.len() > 0,
    ensures
        span_bytes(ls, 0, ls.len() as int) <= 3500 ==> soft_cuts(ls) == seq![
            (0int, ls.len() - 1),
        ],
        span_bytes(ls, 0, ls.len() as int) > 3500 && ls.len() > 1 ==> soft_cuts(ls).len() > 1,
{
    let n = ls.len() as int;
    if span_bytes(ls, 0, n) <= 3500 {
        lemma_small_run(ls, n);
        assert(soft_cuts(ls) =~= seq![(0int, n - 1)]);
    } else if n > 1 {
        let st = soft_run(ls, n - 1);
        lemma_soft_run_start(ls, n - 1);
        lemma_soft_run_steps_back(ls, n - 1);
        lemma_soft_break_bounds(ls, break_window_start(st.start, n - 1), n - 1, n - 1, st.depth);
        assert(soft_run(ls, n).start < n);
        assert(soft_run(ls, n).cuts.len() > 0);
    }
}

proof fn lemma_scan_cuts_stay(ls: Seq<Seq<char>>, m: int, n: int)
    requires
        0 <= m <= n <= ls.len(),
    ensures
        scan_run(ls, m).cuts.len() <= scan_run(ls, n).cuts.len(),
        forall|a: int|
            0 <= a < scan_run(ls, m).cuts.len() ==> #[trigger] scan_run(ls, n).cuts[a] == scan_run(
                ls,
                m,
            ).cuts[a],
    decreases n - m,
{
    if m < n {
        lemma_scan_cuts_stay(ls, m, n - 1);
        let st = scan_run(ls, n - 1);
        let now = scan_run(ls, n);
        assert forall|a: int| 0 <= a < st.cuts.len() implies now.cuts[a] == st.cuts[a] by {}
        assert forall|a: int| 0 <= a < scan_run(ls, m).cuts.len() implies #[trigger] now.cuts[a]
            == scan_run(ls, m).cuts[a] by {
            assert(st.cuts[a] == scan_run(ls, m).cuts[a]);
        }
    }
}

/// A declaration that is nested no deeper than the chunk in front of it starts a chunk of its own,
/// once that has eight hundred bytes: the chunk in front ends on the line before it, where that line
/// is no comment and not blank.
pub proof fn law_declarations_start_chunks(ls: Seq<Seq<char>>, i: int) -> (a: int)
    requires
        0 < i < ls.len(),
        declaration_like(trim_start(ls[i])),
        !comment_like(trim_start(ls[i])),
        scan_run(ls, i).depth <= scan_run(ls, i).min_depth,
        scan_run(ls, i).start < i,
        span_bytes(ls, scan_run(ls, i).start, i) >= 800,
    ensures
        0 <= a < scan_cuts(ls).len(),
        scan_cuts(ls)[a] == (scan_run(ls, i).start, i - 1),
{
    let st = scan_run(ls, i);
    lemma_declaration_shows(ls[i]);
    let now = scan_run(ls, i + 1);
    assert(now == scan_step(ls, st, i));
    lemma_scan_cuts_stay(ls, i + 1, ls.len() as int);
    let a = st.cuts.len() as int;
    assert(now.cuts[a] == (st.start, i - 1));
    assert(scan_run(ls, ls.len() as int).cuts[a] == now.cuts[a]);
    a
}

proof fn lemma_declaration_shows(line: Seq<char>)
    requires
        declaration_like(trim_start(line)),
    ensures
        trim_start(line).len() > 0,
{
    reveal_strlit("pub ");
    reveal_strlit("fn ");
    reveal_strlit("async fn ");
    reveal_strlit("struct ");
    reveal_strlit("enum ");
    reveal_strlit("impl ");
    reveal_strlit("class ");
    reveal_strlit("def ");
    reveal_strlit("function ");
    reveal_strlit("interface ");
    reveal_strlit("trait ");
    reveal_strlit("type ");
    reveal_strlit("namespace ");
    reveal_strlit("mod ");
    reveal_strlit("match ");
    reveal_strlit("public ");
    reveal_strlit("private ");
    reveal_strlit("protected ");
    reveal_strlit("static ");
}

/// A text of no known grammar is one chunk where it has no more than three thousand five hundred
/// bytes. Where it has more, each chunk is the run of lines of the text that its numbers say, joined
/// by line feeds.
pub proof fn law_fallback_chunks_are_the_lines(content: Seq<char>, c: int)
    requires
        !is_blank(content),
        0 <= c < fallback(content).len(),
    ensures
        byte_len(content) <= 3500 ==> fallback(content) == seq![
            ChunkText { content, start_line: 1, end_line: lines(content).len() as int },
        ],
        byte_len(content) > 3500 ==> {
            let chunk = fallback(content)[c];
            &&& 1 <= chunk.start_line <= chunk.end_line <= lines(content).len()
            &&& chunk.content == join(
                lines(content).subrange(chunk.start_line - 1, chunk.end_line),
                "\n"@,
            )
        },
{
    law_fallback_keeps_lines(content);
    lemma_some_line_not_blank(content);
    if byte_len(content) > 3500 {
        assert(spans_its_lines(lines(content), 1, fallback(content)[c]));
    }
}

/// Each chunk of a split by size is the run of lines of the text that its numbers say, joined by line
/// feeds; the first line of the text has the number that the split starts from.
pub proof fn law_split_chunks_are_the_lines(text: Seq<char>, base: int, c: int)
    requires
        0 <= c < soft_split(text, base).len(),
    ensures
        ({
            let chunk = soft_split(text, base)[c];
            &&& base <= chunk.start_line <= chunk.end_line < base + lines(text).len()
            &&& chunk.content == join(
                lines(text).subrange(chunk.start_line - base, chunk.end_line - base + 1),
                "\n"@,
            )
        }),
{
    law_soft_split_keeps_lines(text, base);
    assert(spans_its_lines(lines(text), base, soft_split(text, base)[c]));
}

/// A line that is a comment opens the comment that goes with what follows, where none is open, and one
/// that is neither comment nor blank closes it; a blank line leaves it as it is.
pub proof fn law_comments_are_kept_for_what_follows(ls: Seq<Seq<char>>, st: LineScan, i: int)
    requires
        0 <= st.start < i < ls.len(),
    ensures
        comment_like(trim_start(ls[i])) && st.trivia is None && ls[i] != ls[st.start]
            && span_bytes(ls, st.start, i) < 800 ==> scan_step(ls, st, i).trivia == Some(i),
        comment_like(trim_start(ls[i])) && st.trivia is Some && span_bytes(ls, st.start, i) < 800
            ==> scan_step(ls, st, i).trivia == st.trivia,
        trim_start(ls[i]).len() == 0 && span_bytes(ls, st.start, i) < 800 ==> scan_step(
            ls,
            st,
            i,
        ).trivia == st.trivia || comment_like(trim_start(ls[i])),
        !comment_like(trim_start(ls[i])) && trim_start(ls[i]).len() > 0 ==> scan_step(
            ls,
            st,
            i,
        ).trivia is None,
{
}

/// Nesting is counted by braces, line by line: every opening brace is one deeper and every closing one
/// less deep, and a new chunk starts out as deep as the text is where it is cut.
pub proof fn law_depth_counts_braces(ls: Seq<Seq<char>>, n: int)
    requires
        0 <= n < ls.len(),
    ensures
        scan_run(ls, 0).depth == 0,
        soft_run(ls, 0).depth == 0,
        scan_run(ls, n + 1).depth == scan_run(ls, n).depth + ls[n].filter(
            |c: char| c == '{',
        ).len() - ls[n].filter(|c: char| c == '}').len(),
        soft_run(ls, n + 1).depth == soft_run(ls, n).depth + ls[n].filter(
            |c: char| c == '{',
        ).len() - ls[n].filter(|c: char| c == '}').len(),
        scan_run(ls, n + 1).min_depth <= scan_run(ls, n + 1).depth,
        scan_run(ls, n + 1).cuts.len() > scan_run(ls, n).cuts.len() ==> scan_run(
            ls,
            n + 1,
        ).min_depth == if scan_run(ls, n + 1).depth < scan_run(ls, n).depth {
            scan_run(ls, n + 1).depth
        } else {
            scan_run(ls, n).depth
        },
{
    lemma_count_is_filter(ls[n], '{');
    lemma_count_is_filter(ls[n], '}');
}

/// A chunk that has grown over three thousand five hundred bytes is closed at a good place, where no
/// declaration closes it: it ends there, unless that is its first line.
pub proof fn law_large_chunks_are_closed(ls: Seq<Seq<char>>, i: int) -> (a: int)
    requires
        0 < i < ls.len(),
        !declaration_like(trim_start(ls[i])),
        span_bytes(ls, scan_run(ls, i).start, i) > 3500,
        soft_break(ls, scan_run(ls, i).start, i, scan_run(ls, i).depth) > scan_run(ls, i).start,
    ensures
        0 <= a < scan_cuts(ls).len(),
        scan_cuts(ls)[a] == (
            scan_run(ls, i).start,
            soft_break(ls, scan_run(ls, i).start, i, scan_run(ls, i).depth),
        ),
{
    let st = scan_run(ls, i);
    let now = scan_run(ls, i + 1);
    assert(now == scan_step(ls, st, i));
    lemma_scan_cuts_stay(ls, i + 1, ls.len() as int);
    let a = st.cuts.len() as int;
    assert(scan_run(ls, ls.len() as int).cuts[a] == now.cuts[a]);
    a
}

/// A declaration behind a comment takes the comment with it: the chunk in front of them ends on the line
/// before the comment, once it has eight hundred bytes.
pub proof fn law_declarations_take_their_comments(ls: Seq<Seq<char>>, i: int, k: int) -> (a: int)
    requires
        0 < i < ls.len(),
        declaration_like(trim_start(ls[i])),
        trivia_at(ls, scan_run(ls, i), i) == Some(k),
        scan_run(ls, i).start < k,
        scan_run(ls, i).depth <= scan_run(ls, i).min_depth,
        span_bytes(ls, scan_run(ls, i).start, i) >= 800,
    ensures
        0 <= a < scan_cuts(ls).len(),
        scan_cuts(ls)[a] == (scan_run(ls, i).start, k - 1),
{
    let st = scan_run(ls, i);
    lemma_scan_run_bounds(ls, i);
    let now = scan_run(ls, i + 1);
    assert(now == scan_step(ls, st, i));
    lemma_scan_cuts_stay(ls, i + 1, ls.len() as int);
    let a = st.cuts.len() as int;
    assert(now.cuts[a] == (st.start, k - 1));
    assert(scan_run(ls, ls.len() as int).cuts[a] == now.cuts[a]);
    a
}

/// A line changes nothing of the chunks before it where the open chunk has less than eight hundred
/// bytes, or no more than three thousand five hundred and no declaration on that line.
pub proof fn law_small_chunks_stay_open(ls: Seq<Seq<char>>, i: int)
    requires
        0 <= i < ls.len(),
        span_bytes(ls, scan_run(ls, i).start, i) < 800 || (span_bytes(ls, scan_run(ls, i).start, i)
            <= 3500 && !declaration_like(trim_start(ls[i]))),
    ensures
        scan_run(ls, i + 1).cuts == scan_run(ls, i).cuts,
        scan_run(ls, i + 1).start == scan_run(ls, i).start,
{
}

/// A declaration that is nested deeper than the chunk it stands in does not close it.
pub proof fn law_nested_declarations_close_nothing(ls: Seq<Seq<char>>, i: int)
    requires
        0 <= i < ls.len(),
        scan_run(ls, i).depth > scan_run(ls, i).min_depth,
        span_bytes(ls, scan_run(ls, i).start, i) <= 3500,
    ensures
        scan_run(ls, i + 1).cuts == scan_run(ls, i).cuts,
        scan_run(ls, i + 1).start == scan_run(ls, i).start,
{
}

/// Chunks of a text of no known grammar overlap by two lines, where the earlier has more than two.
pub proof fn law_chunks_overlap_by_two_lines(ls: Seq<Seq<char>>, a: int)
    requires
        0 < a < scan_cuts(ls).len(),
        scan_cuts(ls)[a - 1].1 - scan_cuts(ls)[a - 1].0 >= 2,
    ensures
        scan_cuts(ls)[a].0 == scan_cuts(ls)[a - 1].1 - 1,
{
    law_scan_cuts_overlap(ls);
    assert(cuts_share(scan_cuts(ls)));
    assert(scan_cuts(ls)[a - 1].0 <= scan_cuts(ls)[a].0);
}

} // verus!
