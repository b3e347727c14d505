//! What a search shows: the lines that match, their surroundings, and the words that matched.
use vstd::prelude::*;

use crate::keywords::{line_matches_keyword, lower_keywords, matches_keyword, query_words};
use crate::numbers::{append_number, append_right_aligned, decimal, right_align};
use crate::strings::{
    join, join_range, lemma_join_shows_parts, lemma_occurs_between, lemma_occurs_whole, lines, occurs,
    split_lines, texts, views,
};
use crate::text::{append_text, from_chars, is_word_char, lowercase, same_text, to_chars};

verus! {

// ---------------------------------------------------------------------------------------------
// Lines that match
// ---------------------------------------------------------------------------------------------
/// Whether a text matches one of the keywords, upper and lower case aside.
pub open spec fn matches_any(text: Seq<char>, kws: Seq<Seq<char>>) -> bool {
    exists|k: int| 0 <= k < kws.len() && matches_keyword(lowercase(text), #[trigger] kws[k])
}

/// Whether a text matches one of the keywords, upper and lower case aside.
fn any_keyword(text: &[char], kws: &Vec<String>) -> (res: bool)
    ensures
        res == matches_any(text@, texts(kws@)),
{
    let lower = from_chars(text).as_str().to_lowercase();
    let ghost all = texts(kws@);
    for k in 0..kws.len()
        invariant
            all == texts(kws@),
            lower@ == lowercase(text@),
            forall|j: int|
                0 <= j < k ==> !matches_keyword(lowercase(text@), #[trigger] all[j]),
    {
        assert(all[k as int] == kws@[k as int]@);
        if line_matches_keyword(lower.as_str(), kws[k].as_str()) {
            return true;
        }
    }
    false
}

/// The positions of the matching lines among the first `n`.
pub open spec fn matches_up_to(ls: Seq<Seq<char>>, kws: Seq<Seq<char>>, n: int) -> Seq<int>
    decreases n,
{
    if n <= 0 {
        Seq::<int>::empty()
    } else if matches_any(ls[n - 1], kws) {
        matches_up_to(ls, kws, n - 1).push(n - 1)
    } else {
        matches_up_to(ls, kws, n - 1)
    }
}

/// The positions of the lines to show: those that match, or the first where none does.
pub open spec fn shown_matches(ls: Seq<Seq<char>>, kws: Seq<Seq<char>>) -> Seq<int> {
    let found = matches_up_to(ls, kws, ls.len() as int);
    if found.len() == 0 && ls.len() > 0 {
        seq![0int]
    } else {
        found
    }
}

/// Positions as mathematical numbers.
pub open spec fn numbers_of(v: Seq<usize>) -> Seq<int> {
    v.map_values(|i: usize| i as int)
}

/// The positions of the lines to show: those that match, or the first where none does.
pub fn matching_lines(ls: &Vec<&[char]>, kws: &Vec<String>) -> (res: Vec<usize>)
    ensures
        numbers_of(res@) == shown_matches(views(ls@), texts(kws@)),
{
    let ghost all = views(ls@);
    let ghost words = texts(kws@);
    let mut out: Vec<usize> = Vec::new();
    assert(numbers_of(out@) =~= Seq::<int>::empty());
    for i in 0..ls.len()
        invariant
            all == views(ls@),
            words == texts(kws@),
            numbers_of(out@) == matches_up_to(all, words, i as int),
    {
        assert(all[i as int] == ls@[i as int]@);
        if any_keyword(ls[i], kws) {
            let ghost before = numbers_of(out@);
            out.push(i);
            assert(numbers_of(out@) =~= before.push(i as int));
        }
    }
    if out.len() == 0 && ls.len() > 0 {
        out.push(0);
        assert(numbers_of(out@) =~= seq![0int]);
    }
    out
}

// ---------------------------------------------------------------------------------------------
// Their surroundings
// ---------------------------------------------------------------------------------------------
/// The first line of the surroundings of line `i`.
pub open spec fn context_start(i: int, context: int) -> int {
    if i >= context {
        i - context
    } else {
        0
    }
}

/// The last line of the surroundings of line `i`, in a text of `total` lines.
pub open spec fn context_end(i: int, context: int, total: int) -> int {
    if i + context < total {
        i + context
    } else {
        total - 1
    }
}

/// Ranges after one more: it joins the last where they touch.
pub open spec fn add_range(ranges: Seq<(int, int)>, start: int, end: int) -> Seq<(int, int)> {
    if ranges.len() > 0 && start <= ranges.last().1 + 1 {
        ranges.drop_last().push(
            (
                ranges.last().0,
                if ranges.last().1 < end {
                    end
                } else {
                    ranges.last().1
                },
            ),
        )
    } else {
        ranges.push((start, end))
    }
}

/// The ranges of lines to show for the first `n` matches.
pub open spec fn ranges_up_to(found: Seq<int>, context: int, total: int, n: int) -> Seq<(int, int)>
    decreases n,
{
    if n <= 0 {
        Seq::<(int, int)>::empty()
    } else {
        add_range(
            ranges_up_to(found, context, total, n - 1),
            context_start(found[n - 1], context),
            context_end(found[n - 1], context, total),
        )
    }
}

/// Ranges as pairs of mathematical numbers.
pub open spec fn pairs_of(v: Seq<(usize, usize)>) -> Seq<(int, int)> {
    v.map_values(|r: (usize, usize)| (r.0 as int, r.1 as int))
}

/// The ranges of lines to show, first and last line each.
pub fn context_ranges(found: &Vec<usize>, context: usize, total: usize) -> (res: Vec<
    (usize, usize),
>)
    requires
        forall|i: int| 0 <= i < found@.len() ==> #[trigger] found@[i] < total,
    ensures
        pairs_of(res@) == ranges_up_to(
            numbers_of(found@),
            context as int,
            total as int,
            found@.len() as int,
        ),
{
    let ghost all = numbers_of(found@);
    let mut ranges: Vec<(usize, usize)> = Vec::new();
    assert(pairs_of(ranges@) =~= Seq::<(int, int)>::empty());
    for n in 0..found.len()
        invariant
            forall|i: int| 0 <= i < found@.len() ==> #[trigger] found@[i] < total,
            all == numbers_of(found@),
            pairs_of(ranges@) == ranges_up_to(all, context as int, total as int, n as int),
            forall|i: int| 0 <= i < ranges@.len() ==> (#[trigger] ranges@[i]).1 < total,
    {
        let i: usize = found[n];
        assert(all[n as int] == i as int);
        let start: usize = if i >= context {
            i - context
        } else {
            0
        };
        let end: usize = if context < total - i {
            i + context
        } else {
            total - 1
        };
        let ghost before = pairs_of(ranges@);
        let count = ranges.len();
        if count > 0 && start <= ranges[count - 1].1 + 1 {
            let last = ranges[count - 1];
            assert(before.last() == (last.0 as int, last.1 as int));
            let joined: usize = if last.1 < end {
                end
            } else {
                last.1
            };
            ranges.set(count - 1, (last.0, joined));
            assert(pairs_of(ranges@) =~= before.drop_last().push((last.0 as int, joined as int)));
        } else {
            assert(count > 0 ==> before.last() == (
                ranges@[count - 1].0 as int,
                ranges@[count - 1].1 as int,
            ));
            ranges.push((start, end));
            assert(pairs_of(ranges@) =~= before.push((start as int, end as int)));
        }
    }
    ranges
}

// ---------------------------------------------------------------------------------------------
// The words that matched
// ---------------------------------------------------------------------------------------------
/// A part of a line, and whether it is to stand out.
#[derive(Debug)]
pub struct Segment {
    pub text: String,
    pub highlighted: bool,
}

/// What a part of a line says.
#[verifier::ext_equal]
pub struct SegmentText {
    pub text: Seq<char>,
    pub highlighted: bool,
}

impl View for Segment {
    type V = SegmentText;

    open spec fn view(&self) -> SegmentText {
        SegmentText { text: self.text@, highlighted: self.highlighted }
    }
}

/// What the parts of a line say.
pub open spec fn segment_texts(v: Seq<Segment>) -> Seq<SegmentText> {
    v.map_values(|s: Segment| s@)
}

/// Where a scan of a line stands: the parts behind it, the part it is in, and whether that is a
/// word.
#[verifier::ext_equal]
pub struct LineParts {
    pub done: Seq<SegmentText>,
    pub token: Seq<char>,
    pub word: bool,
}

/// The parts of a line with the one a scan is in.
pub open spec fn close_part(st: LineParts, kws: Seq<Seq<char>>) -> Seq<SegmentText> {
    if st.token.len() == 0 {
        st.done
    } else {
        st.done.push(
            SegmentText { text: st.token, highlighted: st.word && matches_any(st.token, kws) },
        )
    }
}

/// Where a scan stands after one more character.
pub open spec fn part_step(st: LineParts, kws: Seq<Seq<char>>, c: char) -> LineParts {
    if is_word_char(c) == st.word {
        LineParts { token: st.token.push(c), ..st }
    } else {
        LineParts { done: close_part(st, kws), token: seq![c], word: is_word_char(c) }
    }
}

/// Where a scan stands after the first `n` characters.
pub open spec fn part_run(line: Seq<char>, kws: Seq<Seq<char>>, n: int) -> LineParts
    decreases n,
{
    if n <= 0 {
        LineParts { done: Seq::<SegmentText>::empty(), token: Seq::<char>::empty(), word: false }
    } else {
        part_step(part_run(line, kws, n - 1), kws, line[n - 1])
    }
}

/// The parts of a line: words that match a keyword stand out. Without keywords, the line is one
/// part.
pub open spec fn highlight(line: Seq<char>, kws: Seq<Seq<char>>) -> Seq<SegmentText> {
    if kws.len() == 0 {
        seq![SegmentText { text: line, highlighted: false }]
    } else {
        close_part(part_run(line, kws, line.len() as int), kws)
    }
}

/// Ends the part that a scan is in.
fn end_part(done: &mut Vec<Segment>, token: &Vec<char>, word: bool, kws: &Vec<String>)
    ensures
        segment_texts(final(done)@) == close_part(
            LineParts { done: segment_texts(old(done)@), token: token@, word },
            texts(kws@),
        ),
{
    if token.len() > 0 {
        let ghost before = segment_texts(done@);
        let highlighted = word && any_keyword(token.as_slice(), kws);
        let segment = Segment { text: from_chars(token.as_slice()), highlighted };
        let ghost text = segment@;
        done.push(segment);
        assert(segment_texts(done@) =~= before.push(text));
    }
}

/// The parts of a line, with those words standing out that match a keyword.
fn highlight_keywords(line: &[char], kws: &Vec<String>) -> (res: Vec<Segment>)
    ensures
        segment_texts(res@) == highlight(line@, texts(kws@)),
{
    let mut done: Vec<Segment> = Vec::new();
    assert(segment_texts(done@) =~= Seq::<SegmentText>::empty());
    if kws.len() == 0 {
        let segment = Segment { text: from_chars(line), highlighted: false };
        done.push(segment);
        assert(segment_texts(done@) =~= highlight(line@, texts(kws@)));
        return done;
    }
    let mut token: Vec<char> = Vec::new();
    let mut word = false;
    let ghost words = texts(kws@);
    for i in 0..line.len()
        invariant
            words == texts(kws@),
            part_run(line@, words, i as int) == (LineParts {
                done: segment_texts(done@),
                token: token@,
                word,
            }),
    {
        let c = line[i];
        let ghost before = part_run(line@, words, i as int);
        let now = c.is_alphanumeric() || c == '_';
        if now == word {
            token.push(c);
        } else {
            end_part(&mut done, &token, word, kws);
            token = Vec::new();
            token.push(c);
            word = now;
            assert(token@ =~= seq![c]);
        }
        assert(part_run(line@, words, i + 1) == part_step(before, words, c));
    }
    end_part(&mut done, &token, word, kws);
    done
}

/// The parts of a line, with those words standing out that match a keyword of the query.
pub fn highlight_match(line: &str, query: &str) -> (res: Vec<Segment>)
    ensures
        segment_texts(res@) == highlight(line@, query_words(query@)),
{
    let chars = to_chars(line);
    let kws = lower_keywords(query);
    highlight_keywords(chars.as_slice(), &kws)
}

// ---------------------------------------------------------------------------------------------
// The report on one file
// ---------------------------------------------------------------------------------------------
/// A line of the report on a file.
#[derive(Debug)]
pub enum ReportLine {
    /// Lines were left out here.
    Gap,
    /// A line that matches.
    Match { label: String, parts: Vec<Segment> },
    /// A line nearby.
    Nearby { label: String, text: String },
}

/// What a line of a report says.
#[verifier::ext_equal]
pub enum ReportText {
    Gap,
    Match { label: Seq<char>, parts: Seq<SegmentText> },
    Nearby { label: Seq<char>, text: Seq<char> },
}

impl View for ReportLine {
    type V = ReportText;

    open spec fn view(&self) -> ReportText {
        match *self {
            ReportLine::Gap => ReportText::Gap,
            ReportLine::Match { label, parts } => ReportText::Match {
                label: label@,
                parts: segment_texts(parts@),
            },
            ReportLine::Nearby { label, text } => ReportText::Nearby {
                label: label@,
                text: text@,
            },
        }
    }
}

/// What a report says.
pub open spec fn report_texts(v: Seq<ReportLine>) -> Seq<ReportText> {
    v.map_values(|l: ReportLine| l@)
}

/// The label of line `i`, whose number is counted from one.
pub open spec fn line_label(i: int) -> Seq<char> {
    "Line "@ + right_align(decimal((i + 1) as nat), 4) + ":"@
}

/// What the report says of line `i`.
pub open spec fn reported_line(
    ls: Seq<Seq<char>>,
    kws: Seq<Seq<char>>,
    found: Seq<int>,
    i: int,
) -> ReportText {
    if found.contains(i) {
        ReportText::Match { label: line_label(i), parts: highlight(ls[i], kws) }
    } else {
        ReportText::Nearby { label: line_label(i), text: ls[i] }
    }
}

/// What the report says of the lines from `start` up to, and without, `end`.
pub open spec fn reported_range(
    ls: Seq<Seq<char>>,
    kws: Seq<Seq<char>>,
    found: Seq<int>,
    start: int,
    end: int,
) -> Seq<ReportText> {
    Seq::new((end - start) as nat, |k: int| reported_line(ls, kws, found, start + k))
}

/// The report on the first `n` ranges, with a gap between any two.
pub open spec fn reported_ranges(
    ls: Seq<Seq<char>>,
    kws: Seq<Seq<char>>,
    found: Seq<int>,
    ranges: Seq<(int, int)>,
    n: int,
) -> Seq<ReportText>
    decreases n,
{
    if n <= 0 {
        Seq::<ReportText>::empty()
    } else {
        let before = reported_ranges(ls, kws, found, ranges, n - 1);
        (if n > 1 {
            before.push(ReportText::Gap)
        } else {
            before
        }) + reported_range(ls, kws, found, ranges[n - 1].0, ranges[n - 1].1 + 1)
    }
}

/// The report on a file: the lines that match a keyword of the query, and those around them.
pub open spec fn report(content: Seq<char>, query: Seq<char>, context: int) -> Seq<ReportText> {
    let ls = lines(content);
    let kws = query_words(query);
    let found = shown_matches(ls, kws);
    let ranges = ranges_up_to(found, context, ls.len() as int, found.len() as int);
    reported_ranges(ls, kws, found, ranges, ranges.len() as int)
}

/// The label of line `i`.
fn label_of(i: usize) -> (res: String)
    requires
        i < usize::MAX,
    ensures
        res@ == line_label(i as int),
{
    let mut label = "Line ".to_owned();
    append_right_aligned(&mut label, i + 1, 4);
    append_text(&mut label, ":");
    label
}

/// Whether a position is in a list.
fn holds(found: &Vec<usize>, i: usize) -> (res: bool)
    ensures
        res == numbers_of(found@).contains(i as int),
{
    let ghost all = numbers_of(found@);
    for k in 0..found.len()
        invariant
            all == numbers_of(found@),
            forall|j: int| 0 <= j < k ==> #[trigger] all[j] != i as int,
    {
        assert(all[k as int] == found@[k as int] as int);
        if found[k] == i {
            return true;
        }
    }
    false
}

/// Whether positions ascend and are all below `total`.
pub open spec fn ascending(found: Seq<int>, total: int) -> bool {
    &&& forall|i: int| 0 <= i < found.len() ==> 0 <= #[trigger] found[i] < total
    &&& forall|i: int, j: int|
        0 <= i < j < found.len() ==> #[trigger] found[i] < #[trigger] found[j]
}

proof fn lemma_matches_ascend(ls: Seq<Seq<char>>, kws: Seq<Seq<char>>, n: int)
    requires
        0 <= n,
    ensures
        ascending(matches_up_to(ls, kws, n), n),
    decreases n,
{
    if n > 0 {
        lemma_matches_ascend(ls, kws, n - 1);
        let before = matches_up_to(ls, kws, n - 1);
        let now = matches_up_to(ls, kws, n);
        assert forall|i: int| 0 <= i < now.len() implies 0 <= #[trigger] now[i] < n by {
            if i < before.len() {
                assert(now[i] == before[i]);
            }
        }
        assert forall|i: int, j: int| 0 <= i < j < now.len() implies #[trigger] now[i]
            < #[trigger] now[j] by {
            assert(now[i] == before[i]);
            if j < before.len() {
                assert(now[j] == before[j]);
            }
        }
    }
}

proof fn lemma_shown_ascend(ls: Seq<Seq<char>>, kws: Seq<Seq<char>>)
    ensures
        ascending(shown_matches(ls, kws), ls.len() as int),
{
    lemma_matches_ascend(ls, kws, ls.len() as int);
}

/// Whether ranges lie in a text of `total` lines, in order, with lines left out between any two.
pub open spec fn apart(ranges: Seq<(int, int)>, total: int) -> bool {
    &&& forall|i: int|
        0 <= i < ranges.len() ==> 0 <= (#[trigger] ranges[i]).0 <= ranges[i].1 < total
    &&& forall|i: int, j: int|
        0 <= i < j < ranges.len() ==> (#[trigger] ranges[i]).1 + 1 < (#[trigger] ranges[j]).0
}

/// Whether line `x` lies in one of the ranges.
pub open spec fn covered(ranges: Seq<(int, int)>, x: int) -> bool {
    exists|i: int| 0 <= i < ranges.len() && (#[trigger] ranges[i]).0 <= x <= ranges[i].1
}

proof fn lemma_add_range(ranges: Seq<(int, int)>, start: int, end: int, total: int, x: int)
    requires
        apart(ranges, total),
        0 <= start <= end < total,
        ranges.len() > 0 ==> ranges.last().0 <= start,
    ensures
        apart(add_range(ranges, start, end), total),
        add_range(ranges, start, end).last().0 <= start,
        covered(add_range(ranges, start, end), x) == (covered(ranges, x) || start <= x <= end),
{
    let now = add_range(ranges, start, end);
    let count = ranges.len() as int;
    assert forall|i: int| 0 <= i < count - 1 implies #[trigger] now[i] == ranges[i] by {}
    if covered(ranges, x) {
        let i = choose|i: int|
            0 <= i < ranges.len() && (#[trigger] ranges[i]).0 <= x <= ranges[i].1;
        if i < now.len() {
            assert(now[i].0 <= x <= now[i].1);
        }
    }
    if start <= x <= end {
        let last = now[now.len() - 1];
        assert(last.0 <= x <= last.1);
    }
    if covered(now, x) {
        let i = choose|i: int| 0 <= i < now.len() && (#[trigger] now[i]).0 <= x <= now[i].1;
        if i < count {
            assert(ranges[i].0 <= ranges[i].1);
        }
    }
    if count > 0 {
        assert forall|i: int| 0 <= i < count - 1 implies (#[trigger] ranges[i]).1 + 1
            < ranges[count - 1].0 by {}
    }
}

proof fn lemma_ranges(found: Seq<int>, context: int, total: int, n: int, x: int)
    requires
        0 <= n <= found.len(),
        0 <= context,
        ascending(found, total),
    ensures
        apart(ranges_up_to(found, context, total, n), total),
        n > 0 ==> ranges_up_to(found, context, total, n).len() > 0 && ranges_up_to(
            found,
            context,
            total,
            n,
        ).last().0 <= context_start(found[n - 1], context),
        covered(ranges_up_to(found, context, total, n), x) == exists|k: int|
            0 <= k < n && context_start(#[trigger] found[k], context) <= x <= context_end(
                found[k],
                context,
                total,
            ),
    decreases n,
{
    if n > 0 {
        lemma_ranges(found, context, total, n - 1, x);
        let before = ranges_up_to(found, context, total, n - 1);
        if n > 1 {
            assert(found[n - 2] < found[n - 1]);
        }
        lemma_add_range(
            before,
            context_start(found[n - 1], context),
            context_end(found[n - 1], context, total),
            total,
            x,
        );
        if covered(before, x) {
            let k = choose|k: int|
                0 <= k < n - 1 && context_start(#[trigger] found[k], context) <= x <= context_end(
                    found[k],
                    context,
                    total,
                );
            assert(0 <= k < n && context_start(found[k], context) <= x <= context_end(
                found[k],
                context,
                total,
            ));
        }
    }
}

/// The report on a file: the lines that match a keyword of the query, and those around them.
pub fn file_report(content: &str, query: &str, context: usize) -> (res: Vec<ReportLine>)
    ensures
        report_texts(res@) == report(content@, query@, context as int),
{
    let chars = to_chars(content);
    let ls = split_lines(chars.as_slice());
    let kws = lower_keywords(query);
    let total = ls.len();
    let found = matching_lines(&ls, &kws);
    let ghost all = lines(content@);
    let ghost words = query_words(query@);
    let ghost shown = shown_matches(all, words);
    proof {
        lemma_shown_ascend(all, words);
        assert forall|i: int| 0 <= i < found@.len() implies #[trigger] found@[i] < total by {
            assert(shown[i] == found@[i] as int);
        }
    }
    let ranges = context_ranges(&found, context, total);
    let ghost pairs = pairs_of(ranges@);
    proof {
        lemma_ranges(shown, context as int, total as int, shown.len() as int, 0);
    }
    let mut out: Vec<ReportLine> = Vec::new();
    assert(report_texts(out@) =~= Seq::<ReportText>::empty());
    for n in 0..ranges.len()
        invariant
            views(ls@) == all,
            texts(kws@) == words,
            total == ls@.len(),
            numbers_of(found@) == shown,
            pairs == pairs_of(ranges@),
            apart(pairs, total as int),
            report_texts(out@) == reported_ranges(all, words, shown, pairs, n as int),
    {
        assert(pairs[n as int] == (ranges@[n as int].0 as int, ranges@[n as int].1 as int));
        let start: usize = ranges[n].0;
        let end: usize = ranges[n].1 + 1;
        if n > 0 {
            let ghost before = report_texts(out@);
            out.push(ReportLine::Gap);
            assert(report_texts(out@) =~= before.push(ReportText::Gap));
        }
        let ghost head = report_texts(out@);
        assert(head + reported_range(all, words, shown, start as int, start as int) =~= head);
        let mut i: usize = start;
        while i < end
            invariant
                views(ls@) == all,
                texts(kws@) == words,
                total == ls@.len(),
                numbers_of(found@) == shown,
                start <= i <= end,
                end <= total,
                report_texts(out@) == head + reported_range(
                    all,
                    words,
                    shown,
                    start as int,
                    i as int,
                ),
            decreases end - i,
        {
            assert(all[i as int] == ls@[i as int]@);
            let line = if holds(&found, i) {
                ReportLine::Match { label: label_of(i), parts: highlight_keywords(ls[i], &kws) }
            } else {
                ReportLine::Nearby { label: label_of(i), text: from_chars(ls[i]) }
            };
            let ghost text = line@;
            assert(text == reported_line(all, words, shown, i as int));
            let ghost before = report_texts(out@);
            out.push(line);
            assert(report_texts(out@) =~= before.push(text));
            assert(reported_range(all, words, shown, start as int, i + 1) =~= reported_range(
                all,
                words,
                shown,
                start as int,
                i as int,
            ).push(text));
            i = i + 1;
        }
    }
    out
}

// ---------------------------------------------------------------------------------------------
// What the agent is told of a search
// ---------------------------------------------------------------------------------------------
/// How many lines of a file the agent is shown.
pub const PREVIEW_LINES: usize = 15;

/// A file that a search found, with its score as text.
#[derive(Debug)]
pub struct FoundFile {
    pub path: String,
    pub score: String,
    pub content: String,
}

/// What a found file says.
#[verifier::ext_equal]
pub struct FoundText {
    pub path: Seq<char>,
    pub score: Seq<char>,
    pub content: Seq<char>,
}

impl View for FoundFile {
    type V = FoundText;

    open spec fn view(&self) -> FoundText {
        FoundText { path: self.path@, score: self.score@, content: self.content@ }
    }
}

/// What the hits of a search say. A hit that could not be fetched says nothing.
pub open spec fn hit_texts(v: Seq<Option<FoundFile>>) -> Seq<Option<FoundText>> {
    v.map_values(
        |f: Option<FoundFile>|
            match f {
                Some(f) => Some(f@),
                None => None,
            },
    )
}

/// The first lines of a file.
pub open spec fn first_lines(content: Seq<char>) -> Seq<char> {
    let ls = lines(content);
    join(
        ls.take(
            if ls.len() < PREVIEW_LINES {
                ls.len() as int
            } else {
                PREVIEW_LINES as int
            },
        ),
        "\n"@,
    )
}

/// What the agent is told of one file.
pub open spec fn found_entry(f: FoundText) -> Seq<char> {
    "FILE: "@ + f.path + " (score "@ + f.score + ", "@ + decimal(lines(f.content).len())
        + " lines total)\n"@ + first_lines(f.content) + "\n---\n"@
}

/// Whether one of the first `n` hits is the file at `path`.
pub open spec fn already_found(hits: Seq<Option<FoundText>>, n: int, path: Seq<char>) -> bool {
    exists|k: int| 0 <= k < n && (#[trigger] hits[k]) is Some && hits[k]->Some_0.path == path
}

/// What the agent is told of the first `n` hits: each file once.
pub open spec fn entries_up_to(hits: Seq<Option<FoundText>>, n: int) -> Seq<char>
    decreases n,
{
    if n <= 0 {
        Seq::<char>::empty()
    } else {
        let before = entries_up_to(hits, n - 1);
        match hits[n - 1] {
            Some(f) => if already_found(hits, n - 1, f.path) {
                before
            } else {
                before + found_entry(f)
            },
            None => before,
        }
    }
}

/// What the agent is told of a search.
pub open spec fn search_observation(hits: Seq<Option<FoundText>>) -> Seq<char> {
    if hits.len() == 0 {
        "No results found for that query."@
    } else {
        entries_up_to(hits, hits.len() as int)
    }
}

/// Appends what the agent is told of one file.
fn append_entry(out: &mut String, f: &FoundFile)
    ensures
        final(out)@ == old(out)@ + found_entry(f@),
{
    let ghost before = out@;
    let chars = to_chars(f.content.as_str());
    let ls = split_lines(chars.as_slice());
    let shown: usize = if ls.len() < PREVIEW_LINES {
        ls.len()
    } else {
        PREVIEW_LINES
    };
    let head = join_range(&ls, 0, shown, "\n");
    assert(views(ls@).subrange(0, shown as int) =~= lines(f.content@).take(shown as int));
    let mut entry = "FILE: ".to_owned();
    append_text(&mut entry, f.path.as_str());
    append_text(&mut entry, " (score ");
    append_text(&mut entry, f.score.as_str());
    append_text(&mut entry, ", ");
    append_number(&mut entry, ls.len() as u64);
    append_text(&mut entry, " lines total)\n");
    append_text(&mut entry, from_chars(head.as_slice()).as_str());
    append_text(&mut entry, "\n---\n");
    append_text(out, entry.as_str());
}

/// What the agent is told of a search.
pub fn describe_hits(hits: &Vec<Option<FoundFile>>) -> (res: String)
    ensures
        res@ == search_observation(hit_texts(hits@)),
{
    if hits.len() == 0 {
        return "No results found for that query.".to_owned();
    }
    let ghost all = hit_texts(hits@);
    let mut out = String::new();
    assert(out@ =~= entries_up_to(all, 0));
    for i in 0..hits.len()
        invariant
            all == hit_texts(hits@),
            out@ == entries_up_to(all, i as int),
    {
        match &hits[i] {
            Some(f) => {
                assert(all[i as int] == Some(f@));
                let mut seen = false;
                for k in 0..i
                    invariant
                        i <= hits@.len(),
                        all == hit_texts(hits@),
                        seen == already_found(all, k as int, f@.path),
                {
                    let ghost before = already_found(all, k as int, f@.path);
                    match &hits[k] {
                        Some(g) => {
                            assert(all[k as int] == Some(g@));
                            if same_text(g.path.as_str(), f.path.as_str()) {
                                seen = true;
                            }
                        },
                        None => {
                            assert(all[k as int] is None);
                        },
                    }
                    assert(before ==> already_found(all, k + 1, f@.path)) by {
                        if before {
                            let m = choose|m: int|
                                0 <= m < k && (#[trigger] all[m]) is Some && all[m]->Some_0.path
                                    == f@.path;
                            assert(0 <= m < k + 1 && all[m] is Some && all[m]->Some_0.path
                                == f@.path);
                        }
                    }
                }
                if !seen {
                    append_entry(&mut out, f);
                }
            },
            None => {
                assert(all[i as int] is None);
            },
        }
    }
    out
}

/// What came of a search.
#[derive(Debug)]
pub enum SearchOutcome {
    /// The index could not be opened, for this reason.
    NoReader(String),
    /// The search failed, for this reason.
    Failed(String),
    /// The hits, best first.
    Hits(Vec<Option<FoundFile>>),
}

/// What the agent is told when it searches.
pub open spec fn searched_text(outcome: SearchOutcome) -> Seq<char> {
    match outcome {
        SearchOutcome::NoReader(reason) => "Error opening index reader: "@ + reason@,
        SearchOutcome::Failed(reason) => "Search error: "@ + reason@,
        SearchOutcome::Hits(hits) => search_observation(hit_texts(hits@)),
    }
}

/// What the agent is told when it searches.
pub fn tool_search_codebase(outcome: &SearchOutcome) -> (res: String)
    ensures
        res@ == searched_text(*outcome),
{
    match outcome {
        SearchOutcome::NoReader(reason) => {
            let mut out = "Error opening index reader: ".to_owned();
            append_text(&mut out, reason.as_str());
            out
        },
        SearchOutcome::Failed(reason) => {
            let mut out = "Search error: ".to_owned();
            append_text(&mut out, reason.as_str());
            out
        },
        SearchOutcome::Hits(hits) => describe_hits(hits),
    }
}

// ---------------------------------------------------------------------------------------------
// Laws
// ---------------------------------------------------------------------------------------------
/// The ranges that a report shows lie in the file, in order and apart, so that no line is shown
/// twice and a gap stands for lines that are left out. They hold exactly the lines that are no
/// further than `context` from a line that matches.
pub proof fn law_ranges_show_the_surroundings(
    ls: Seq<Seq<char>>,
    kws: Seq<Seq<char>>,
    context: int,
    x: int,
)
    requires
        0 <= context,
        0 <= x < ls.len(),
    ensures
        ({
            let found = shown_matches(ls, kws);
            let ranges = ranges_up_to(found, context, ls.len() as int, found.len() as int);
            &&& apart(ranges, ls.len() as int)
            &&& covered(ranges, x) == exists|k: int|
                0 <= k < found.len() && #[trigger] found[k] - context <= x <= found[k] + context
        }),
{
    let found = shown_matches(ls, kws);
    lemma_shown_ascend(ls, kws);
    lemma_ranges(found, context, ls.len() as int, found.len() as int, x);
    if exists|k: int|
        0 <= k < found.len() && #[trigger] found[k] - context <= x <= found[k] + context {
        let k = choose|k: int|
            0 <= k < found.len() && #[trigger] found[k] - context <= x <= found[k] + context;
        assert(context_start(found[k], context) <= x <= context_end(
            found[k],
            context,
            ls.len() as int,
        ));
    }
}

/// A line is a match exactly where it matches a keyword; only where no line does, the first stands
/// in.
pub proof fn law_matches_are_exact(ls: Seq<Seq<char>>, kws: Seq<Seq<char>>, n: int, x: int)
    requires
        0 <= x < n,
    ensures
        matches_up_to(ls, kws, n).contains(x) == matches_any(ls[x], kws),
    decreases n,
{
    let before = matches_up_to(ls, kws, n - 1);
    let now = matches_up_to(ls, kws, n);
    lemma_matches_ascend(ls, kws, n - 1);
    if x < n - 1 {
        law_matches_are_exact(ls, kws, n - 1, x);
        if before.contains(x) {
            let i = choose|i: int| 0 <= i < before.len() && before[i] == x;
            assert(now[i] == x);
        }
        if now.contains(x) {
            let i = choose|i: int| 0 <= i < now.len() && now[i] == x;
            assert(before[i] == x);
        }
    } else {
        if matches_any(ls[x], kws) {
            assert(now[now.len() - 1] == x);
        } else if now.contains(x) {
            let i = choose|i: int| 0 <= i < now.len() && now[i] == x;
            assert(before[i] == x);
        }
    }
}

/// The texts of the parts of a line, put together.
pub open spec fn joined_parts(parts: Seq<SegmentText>) -> Seq<char>
    decreases parts.len(),
{
    if parts.len() == 0 {
        Seq::<char>::empty()
    } else {
        joined_parts(parts.drop_last()) + parts.last().text
    }
}

proof fn lemma_parts_so_far(line: Seq<char>, kws: Seq<Seq<char>>, n: int)
    requires
        0 <= n <= line.len(),
    ensures
        ({
            let st = part_run(line, kws, n);
            joined_parts(st.done) + st.token == line.take(n)
        }),
    decreases n,
{
    if n == 0 {
        assert(line.take(0) =~= Seq::<char>::empty());
        assert(Seq::<char>::empty() + Seq::<char>::empty() =~= Seq::<char>::empty());
    } else {
        lemma_parts_so_far(line, kws, n - 1);
        let before = part_run(line, kws, n - 1);
        let now = part_run(line, kws, n);
        lemma_close_keeps_text(before, kws);
        assert(line.take(n) =~= line.take(n - 1).push(line[n - 1]));
        assert(joined_parts(now.done) + now.token =~= line.take(n));
    }
}

proof fn lemma_close_keeps_text(st: LineParts, kws: Seq<Seq<char>>)
    ensures
        joined_parts(close_part(st, kws)) == joined_parts(st.done) + st.token,
{
    if st.token.len() == 0 {
        assert(joined_parts(st.done) + st.token =~= joined_parts(st.done));
    } else {
        assert(close_part(st, kws).drop_last() =~= st.done);
    }
}

/// Highlighting loses nothing: the parts of a line, put together, are the line.
pub proof fn law_highlight_keeps_the_line(line: Seq<char>, kws: Seq<Seq<char>>)
    ensures
        joined_parts(highlight(line, kws)) == line,
{
    if kws.len() == 0 {
        let part = SegmentText { text: line, highlighted: false };
        assert(seq![part].drop_last() =~= Seq::<SegmentText>::empty());
        reveal_with_fuel(joined_parts, 2);
        assert(Seq::<char>::empty() + line =~= line);
    } else {
        lemma_parts_so_far(line, kws, line.len() as int);
        lemma_close_keeps_text(part_run(line, kws, line.len() as int), kws);
        assert(line.take(line.len() as int) =~= line);
    }
}

/// One keyword is enough: a line to show is one that some keyword of the query matches, whatever the
/// others do; only where none matches any line, the first line stands in.
pub proof fn law_any_keyword_suffices(ls: Seq<Seq<char>>, kws: Seq<Seq<char>>, x: int)
    requires
        0 <= x < ls.len(),
    ensures
        forall|k: int|
            #![trigger kws[k]]
            0 <= k < kws.len() && occurs(lowercase(ls[x]), kws[k]) ==> shown_matches(
                ls,
                kws,
            ).contains(x),
        (exists|k: int|
            0 <= k < kws.len() && matches_keyword(lowercase(ls[x]), #[trigger] kws[k]))
            ==> shown_matches(ls, kws).contains(x),
        shown_matches(ls, kws).contains(x) ==> (exists|k: int|
            0 <= k < kws.len() && matches_keyword(lowercase(ls[x]), #[trigger] kws[k])) || (x == 0
            && forall|y: int, k: int|
            #![trigger ls[y], kws[k]]
            0 <= y < ls.len() && 0 <= k < kws.len() ==> !matches_keyword(lowercase(ls[y]), kws[k])),
{
    let n = ls.len() as int;
    let found = matches_up_to(ls, kws, n);
    law_matches_are_exact(ls, kws, n, x);
    if found.len() == 0 {
        assert forall|y: int, k: int|
            #![trigger ls[y], kws[k]]
            0 <= y < ls.len() && 0 <= k < kws.len() implies !matches_keyword(
            lowercase(ls[y]),
            kws[k],
        ) by {
            law_matches_are_exact(ls, kws, n, y);
        }
    }
}

/// Whether a line of a report shows line `x` of a file: its number, counted from one, and all of its
/// text.
pub open spec fn shows_line(shown: ReportText, x: int, line: Seq<char>) -> bool {
    match shown {
        ReportText::Gap => false,
        ReportText::Match { label, parts } => label == "Line "@ + right_align(
            decimal((x + 1) as nat),
            4,
        ) + ":"@ && joined_parts(parts) == line,
        ReportText::Nearby { label, text } => label == "Line "@ + right_align(
            decimal((x + 1) as nat),
            4,
        ) + ":"@ && text == line,
    }
}

proof fn lemma_range_reported(
    ls: Seq<Seq<char>>,
    kws: Seq<Seq<char>>,
    found: Seq<int>,
    ranges: Seq<(int, int)>,
    n: int,
    i: int,
    x: int,
) -> (at: int)
    requires
        0 <= i < n <= ranges.len(),
        ranges[i].0 <= x <= ranges[i].1,
    ensures
        0 <= at < reported_ranges(ls, kws, found, ranges, n).len(),
        reported_ranges(ls, kws, found, ranges, n)[at] == reported_line(ls, kws, found, x),
    decreases n,
{
    let before = reported_ranges(ls, kws, found, ranges, n - 1);
    let head = if n > 1 {
        before.push(ReportText::Gap)
    } else {
        before
    };
    if i == n - 1 {
        let part = reported_range(ls, kws, found, ranges[i].0, ranges[i].1 + 1);
        assert(part[x - ranges[i].0] == reported_line(ls, kws, found, x));
        head.len() + (x - ranges[i].0)
    } else {
        lemma_range_reported(ls, kws, found, ranges, n - 1, i, x)
    }
}

/// The report shows every line that a keyword of the query stands in, as a match, and every line no
/// further than `context` from it, with its number and its whole text.
pub proof fn law_report_shows_what_matches(
    content: Seq<char>,
    query: Seq<char>,
    context: int,
    k: int,
    m: int,
    x: int,
) -> (at: int)
    requires
        0 <= context,
        0 <= k < query_words(query).len(),
        0 <= m < lines(content).len(),
        occurs(lowercase(lines(content)[m]), query_words(query)[k]),
        m - context <= x <= m + context,
        0 <= x < lines(content).len(),
    ensures
        0 <= at < report(content, query, context).len(),
        shows_line(report(content, query, context)[at], x, lines(content)[x]),
        x == m ==> report(content, query, context)[at] is Match,
{
    let ls = lines(content);
    let kws = query_words(query);
    let found = shown_matches(ls, kws);
    let ranges = ranges_up_to(found, context, ls.len() as int, found.len() as int);
    law_any_keyword_suffices(ls, kws, m);
    let word = kws[k];
    assert(found.contains(m));
    let j = choose|j: int| 0 <= j < found.len() && found[j] == m;
    law_ranges_show_the_surroundings(ls, kws, context, x);
    assert(found[j] - context <= x <= found[j] + context);
    let i = choose|i: int| 0 <= i < ranges.len() && (#[trigger] ranges[i]).0 <= x <= ranges[i].1;
    law_highlight_keeps_the_line(ls[x], kws);
    lemma_range_reported(ls, kws, found, ranges, ranges.len() as int, i, x)
}

/// A report on a file where a keyword matches shows nothing else as a match: each match in it is a
/// line with a keyword in it, or nearly in it.
pub proof fn law_report_matches_nothing_else(
    ls: Seq<Seq<char>>,
    kws: Seq<Seq<char>>,
    x: int,
    y: int,
    k: int,
)
    requires
        0 <= x < ls.len(),
        0 <= y < ls.len(),
        0 <= k < kws.len(),
        occurs(lowercase(ls[y]), kws[k]),
        forall|j: int|
            0 <= j < kws.len() ==> !matches_keyword(lowercase(ls[x]), #[trigger] kws[j]),
    ensures
        reported_line(ls, kws, shown_matches(ls, kws), x) is Nearby,
        reported_line(ls, kws, shown_matches(ls, kws), y) is Match,
{
    law_any_keyword_suffices(ls, kws, x);
    law_any_keyword_suffices(ls, kws, y);
    assert(matches_keyword(lowercase(ls[y]), kws[k]));
}

/// Whether a part of a line is a whole word or a whole gap between words, and stands out exactly if
/// it is a word that some keyword matches.
pub open spec fn part_in_order(part: SegmentText, kws: Seq<Seq<char>>) -> bool {
    &&& part.text.len() > 0
    &&& forall|i: int|
        0 <= i < part.text.len() ==> is_word_char(#[trigger] part.text[i]) == is_word_char(
            part.text[0],
        )
    &&& part.highlighted == (is_word_char(part.text[0]) && exists|k: int|
        0 <= k < kws.len() && matches_keyword(lowercase(part.text), #[trigger] kws[k]))
}

/// Whether all parts of a line are in order, and words and gaps take turns.
pub open spec fn parts_in_order(parts: Seq<SegmentText>, kws: Seq<Seq<char>>) -> bool {
    &&& forall|i: int| 0 <= i < parts.len() ==> part_in_order(#[trigger] parts[i], kws)
    &&& forall|i: int, j: int|
        0 <= i && j == i + 1 && j < parts.len() ==> is_word_char((#[trigger] parts[i]).text[0])
            != is_word_char((#[trigger] parts[j]).text[0])
}

proof fn lemma_parts_in_order(line: Seq<char>, kws: Seq<Seq<char>>, n: int)
    requires
        0 <= n <= line.len(),
    ensures
        ({
            let st = part_run(line, kws, n);
            &&& parts_in_order(close_part(st, kws), kws)
            &&& forall|i: int|
                0 <= i < st.token.len() ==> is_word_char(#[trigger] st.token[i]) == st.word
            &&& st.token.len() == 0 ==> st.done.len() == 0 && !st.word
        }),
    decreases n,
{
    if n > 0 {
        lemma_parts_in_order(line, kws, n - 1);
        let before = part_run(line, kws, n - 1);
        let now = part_run(line, kws, n);
        let old_parts = close_part(before, kws);
        let parts = close_part(now, kws);
        assert forall|i: int| 0 <= i < parts.len() implies part_in_order(#[trigger] parts[i], kws) by {
            if i < parts.len() - 1 {
                assert(parts[i] == old_parts[i]);
            } else {
                assert(parts[i].text == now.token);
                assert(now.token.last() == line[n - 1]);
            }
        }
        assert forall|i: int, j: int|
            0 <= i && j == i + 1 && j < parts.len() implies is_word_char(
            (#[trigger] parts[i]).text[0],
        ) != is_word_char((#[trigger] parts[j]).text[0]) by {
            assert(parts[i] == old_parts[i]);
            if j < parts.len() - 1 {
                assert(parts[j] == old_parts[j]);
            } else if is_word_char(line[n - 1]) == before.word {
                if before.token.len() > 0 {
                    assert(old_parts[j].text == before.token);
                    assert(parts[j].text[0] == old_parts[j].text[0]);
                }
            } else {
                assert(parts[j].text == seq![line[n - 1]]);
                assert(old_parts[i].text == before.token);
            }
        }
    }
}

/// Highlighting cuts a line into its words and the gaps between them. A word stands out exactly if
/// some keyword matches it, whatever the others do; a gap never does.
pub proof fn law_matching_words_stand_out(line: Seq<char>, kws: Seq<Seq<char>>, i: int)
    requires
        kws.len() > 0,
        0 <= i < highlight(line, kws).len(),
    ensures
        parts_in_order(highlight(line, kws), kws),
        forall|k: int|
            #![trigger kws[k]]
            0 <= k < kws.len() && occurs(lowercase(highlight(line, kws)[i].text), kws[k])
                && is_word_char(highlight(line, kws)[i].text[0]) ==> highlight(
                line,
                kws,
            )[i].highlighted,
        highlight(line, kws)[i].highlighted ==> is_word_char(highlight(line, kws)[i].text[0]),
{
    lemma_parts_in_order(line, kws, line.len() as int);
    assert(part_in_order(highlight(line, kws)[i], kws));
}

proof fn lemma_entry_shown(hits: Seq<Option<FoundText>>, n: int, k: int, p: Seq<char>)
    requires
        0 <= k < n <= hits.len(),
        hits[k] is Some,
        !already_found(hits, k, hits[k]->Some_0.path),
        occurs(found_entry(hits[k]->Some_0), p),
    ensures
        occurs(entries_up_to(hits, n), p),
    decreases n,
{
    if k == n - 1 {
        lemma_occurs_between(
            entries_up_to(hits, n - 1),
            found_entry(hits[k]->Some_0),
            seq![],
            p,
        );
    } else {
        lemma_entry_shown(hits, n - 1, k, p);
        if let Some(f) = hits[n - 1] {
            lemma_occurs_between(seq![], entries_up_to(hits, n - 1), found_entry(f), p);
        }
    }
}

/// The agent is told of every file that a search found: its path, its score, how many lines it has,
/// and each of its first fifteen lines.
pub proof fn law_every_hit_is_told(hits: Seq<Option<FoundText>>, k: int, i: int)
    requires
        0 <= k < hits.len(),
        hits[k] is Some,
        forall|j: int|
            0 <= j < k ==> !((#[trigger] hits[j]) matches Some(f) && f.path
                == hits[k]->Some_0.path),
        0 <= i < lines(hits[k]->Some_0.content).len(),
        i < 15,
    ensures
        occurs(
            search_observation(hits),
            "FILE: "@ + hits[k]->Some_0.path + " (score "@ + hits[k]->Some_0.score + ", "@
                + decimal(lines(hits[k]->Some_0.content).len()) + " lines total)\n"@,
        ),
        occurs(search_observation(hits), lines(hits[k]->Some_0.content)[i]),
{
    let f = hits[k]->Some_0;
    let n = hits.len() as int;
    assert(!already_found(hits, k, f.path));
    let head = "FILE: "@ + f.path + " (score "@ + f.score + ", "@ + decimal(lines(f.content).len())
        + " lines total)\n"@;
    let tail = first_lines(f.content) + "\n---\n"@;
    lemma_occurs_whole(head);
    lemma_occurs_between(seq![], head, tail, head);
    assert(found_entry(f) =~= head + tail);
    lemma_entry_shown(hits, n, k, head);
    let ls = lines(f.content);
    let shown = ls.take(
        if ls.len() < PREVIEW_LINES {
            ls.len() as int
        } else {
            PREVIEW_LINES as int
        },
    );
    lemma_join_shows_parts(shown, "\n"@, i);
    assert(shown[i] == ls[i]);
    lemma_occurs_between(head, first_lines(f.content), "\n---\n"@, ls[i]);
    lemma_entry_shown(hits, n, k, ls[i]);
}

/// A hit on a file that was told before, or that could not be read, adds nothing.
pub proof fn law_no_file_is_told_twice(hits: Seq<Option<FoundText>>, hit: Option<FoundText>)
    requires
        hits.len() > 0,
        hit matches Some(f) ==> exists|j: int|
            0 <= j < hits.len() && (#[trigger] hits[j] matches Some(g) && g.path == f.path),
    ensures
        search_observation(hits.push(hit)) == search_observation(hits),
{
    let more = hits.push(hit);
    let n = hits.len() as int;
    lemma_same_hits(more, hits, n);
    if let Some(f) = hit {
        let j = choose|j: int|
            0 <= j < hits.len() && (#[trigger] hits[j] matches Some(g) && g.path == f.path);
        assert(more[j] == hits[j]);
        assert(already_found(more, n, f.path));
    }
}

/// What is told of the first hits depends on those hits alone.
proof fn lemma_same_hits(a: Seq<Option<FoundText>>, b: Seq<Option<FoundText>>, n: int)
    requires
        0 <= n <= a.len(),
        n <= b.len(),
        forall|i: int| 0 <= i < n ==> #[trigger] a[i] == b[i],
    ensures
        entries_up_to(a, n) == entries_up_to(b, n),
    decreases n,
{
    if n > 0 {
        lemma_same_hits(a, b, n - 1);
        if let Some(f) = a[n - 1] {
            assert(b[n - 1] == a[n - 1]);
            if already_found(a, n - 1, f.path) {
                let k = choose|k: int|
                    0 <= k < n - 1 && (#[trigger] a[k]) is Some && a[k]->Some_0.path == f.path;
                assert(b[k] == a[k]);
            }
            if already_found(b, n - 1, f.path) {
                let k = choose|k: int|
                    0 <= k < n - 1 && (#[trigger] b[k]) is Some && b[k]->Some_0.path == f.path;
                assert(a[k] == b[k]);
            }
        }
    }
}

proof fn lemma_no_gap(part: Seq<ReportText>)
    requires
        forall|k: int| 0 <= k < part.len() ==> !(#[trigger] part[k] is Gap),
    ensures
        part.filter(|l: ReportText| l is Gap).len() == 0,
    decreases part.len(),
{
    reveal(Seq::filter);
    if part.len() > 0 {
        let head = part.drop_last();
        assert forall|k: int| 0 <= k < head.len() implies !(#[trigger] head[k] is Gap) by {
            assert(head[k] == part[k]);
        }
        lemma_no_gap(head);
        assert(!(part[part.len() - 1] is Gap));
    }
}

proof fn lemma_gaps_counted(
    ls: Seq<Seq<char>>,
    kws: Seq<Seq<char>>,
    found: Seq<int>,
    ranges: Seq<(int, int)>,
    n: int,
)
    requires
        0 <= n <= ranges.len(),
    ensures
        reported_ranges(ls, kws, found, ranges, n).filter(|l: ReportText| l is Gap).len() == if n
            > 1 {
            n - 1
        } else {
            0
        },
    decreases n,
{
    let gap = |l: ReportText| l is Gap;
    if n <= 0 {
        reveal(Seq::filter);
    } else {
        lemma_gaps_counted(ls, kws, found, ranges, n - 1);
        let before = reported_ranges(ls, kws, found, ranges, n - 1);
        let part = reported_range(ls, kws, found, ranges[n - 1].0, ranges[n - 1].1 + 1);
        let head = if n > 1 {
            before.push(ReportText::Gap)
        } else {
            before
        };
        assert(head.filter(gap).len() == if n > 1 {
            n - 1
        } else {
            0
        }) by {
            if n > 1 {
                reveal(Seq::filter);
                assert(head.drop_last() =~= before);
            }
        }
        lemma_no_gap(part);
        Seq::filter_distributes_over_add(head, part, gap);
    }
}

/// A gap stands between any two ranges of a report, one for each place where lines were left out.
pub proof fn law_gaps_stand_between_ranges(content: Seq<char>, query: Seq<char>, context: int)
    requires
        0 <= context,
    ensures
        ({
            let ls = lines(content);
            let found = shown_matches(ls, query_words(query));
            let ranges = ranges_up_to(found, context, ls.len() as int, found.len() as int);
            report(content, query, context).filter(|l: ReportText| l is Gap).len()
                == if ranges.len() > 1 {
                ranges.len() - 1
            } else {
                0
            }
        }),
{
    let ls = lines(content);
    let kws = query_words(query);
    let found = shown_matches(ls, kws);
    let ranges = ranges_up_to(found, context, ls.len() as int, found.len() as int);
    lemma_gaps_counted(ls, kws, found, ranges, ranges.len() as int);
}

/// What went wrong with a search is told, and that a search found nothing.
pub proof fn law_failed_search_is_told(reason: String)
    ensures
        occurs(searched_text(SearchOutcome::NoReader(reason)), reason@),
        occurs(searched_text(SearchOutcome::Failed(reason)), reason@),
        occurs(search_observation(Seq::<Option<FoundText>>::empty()), "No results found"@),
{
    lemma_occurs_whole(reason@);
    lemma_occurs_between("Error opening index reader: "@, reason@, seq![], reason@);
    lemma_occurs_between("Search error: "@, reason@, seq![], reason@);
    reveal_strlit("No results found for that query.");
    reveal_strlit("No results found");
    let all = "No results found for that query."@;
    assert(all.subrange(0, 16) =~= "No results found"@);
    assert(crate::strings::occurs_at(all, "No results found"@, 0));
}

/// Where no keyword matches any line, the first line stands in, and it alone.
pub proof fn law_first_line_stands_in(ls: Seq<Seq<char>>, kws: Seq<Seq<char>>)
    requires
        ls.len() > 0,
        forall|y: int, k: int|
            #![trigger ls[y], kws[k]]
            0 <= y < ls.len() && 0 <= k < kws.len() ==> !matches_keyword(lowercase(ls[y]), kws[k]),
    ensures
        shown_matches(ls, kws) == seq![0int],
{
    let n = ls.len() as int;
    let found = matches_up_to(ls, kws, n);
    lemma_matches_ascend(ls, kws, n);
    if found.len() > 0 {
        let y = found[0];
        law_matches_are_exact(ls, kws, n, y);
        assert(found.contains(y));
    }
}

/// Without keywords nothing stands out, and the line stays whole.
pub proof fn law_nothing_stands_out_without_keywords(line: Seq<char>)
    ensures
        highlight(line, Seq::<Seq<char>>::empty()).len() == 1,
        highlight(line, Seq::<Seq<char>>::empty())[0].text == line,
        !highlight(line, Seq::<Seq<char>>::empty())[0].highlighted,
{
}

} // verus!
