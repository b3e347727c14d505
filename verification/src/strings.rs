//! Trimming, searching, splitting, joining and replacing, on sequences of characters.
use vstd::prelude::*;
use vstd::slice::slice_subrange;

use crate::text::{is_whitespace, is_word_char, is_ws, to_chars};

verus! {

// ---------------------------------------------------------------------------------------------
// Trimming
// ---------------------------------------------------------------------------------------------
/// `s` without the white space at its start.
pub open spec fn trim_start(s: Seq<char>) -> Seq<char>
    decreases s.len(),
{
    if s.len() > 0 && is_ws(s[0]) {
        trim_start(s.drop_first())
    } else {
        s
    }
}

/// `s` without the white space at its end.
pub open spec fn trim_end(s: Seq<char>) -> Seq<char>
    decreases s.len(),
{
    if s.len() > 0 && is_ws(s.last()) {
        trim_end(s.drop_last())
    } else {
        s
    }
}

/// `s` without the white space at both ends.
pub open spec fn trim(s: Seq<char>) -> Seq<char> {
    trim_end(trim_start(s))
}

/// Whether `s` holds nothing but white space.
pub open spec fn is_blank(s: Seq<char>) -> bool {
    forall|i: int| 0 <= i < s.len() ==> is_ws(#[trigger] s[i])
}

/// `s` without the characters `c` at its end.
pub open spec fn trim_end_char(s: Seq<char>, c: char) -> Seq<char>
    decreases s.len(),
{
    if s.len() > 0 && s.last() == c {
        trim_end_char(s.drop_last(), c)
    } else {
        s
    }
}

proof fn lemma_trim_start_skip(s: Seq<char>, k: int)
    requires
        0 <= k <= s.len(),
        is_blank(s.take(k)),
        k == s.len() || !is_ws(s[k]),
    ensures
        trim_start(s) == s.skip(k),
    decreases k,
{
    if k == 0 {
        assert(s.skip(0) =~= s);
    } else {
        assert(s.take(k)[0] == s[0]);
        assert forall|i: int| 0 <= i < s.drop_first().take(k - 1).len() implies is_ws(
            #[trigger] s.drop_first().take(k - 1)[i],
        ) by {
            assert(s.take(k)[i + 1] == s[i + 1]);
        }
        lemma_trim_start_skip(s.drop_first(), k - 1);
        assert(s.drop_first().skip(k - 1) =~= s.skip(k));
    }
}

proof fn lemma_trim_end_take(s: Seq<char>, k: int)
    requires
        0 <= k <= s.len(),
        is_blank(s.skip(k)),
        k == 0 || !is_ws(s[k - 1]),
    ensures
        trim_end(s) == s.take(k),
    decreases s.len(),
{
    if k == s.len() {
        assert(s.take(k) =~= s);
    } else {
        assert(s.skip(k)[s.len() - 1 - k] == s.last());
        assert forall|i: int| 0 <= i < s.drop_last().skip(k).len() implies is_ws(
            #[trigger] s.drop_last().skip(k)[i],
        ) by {
            assert(s.skip(k)[i] == s[i + k]);
        }
        lemma_trim_end_take(s.drop_last(), k);
        assert(s.drop_last().take(k) =~= s.take(k));
    }
}

/// `s` without the white space at its start.
pub fn trimmed_start<'a>(s: &'a [char]) -> (res: &'a [char])
    ensures
        res@ == trim_start(s@),
{
    let mut k: usize = 0;
    while k < s.len() && is_whitespace(s[k])
        invariant
            k <= s@.len(),
            is_blank(s@.take(k as int)),
        decreases s@.len() - k,
    {
        assert(s@.take(k + 1) =~= s@.take(k as int).push(s@[k as int]));
        k = k + 1;
    }
    proof {
        lemma_trim_start_skip(s@, k as int);
        assert(s@.subrange(k as int, s@.len() as int) =~= s@.skip(k as int));
    }
    slice_subrange(s, k, s.len())
}

/// `s` without the white space at its end.
pub fn trimmed_end<'a>(s: &'a [char]) -> (res: &'a [char])
    ensures
        res@ == trim_end(s@),
{
    let mut k: usize = s.len();
    while k > 0 && is_whitespace(s[k - 1])
        invariant
            k <= s@.len(),
            is_blank(s@.skip(k as int)),
        decreases k,
    {
        assert forall|i: int| 0 <= i < s@.skip(k - 1).len() implies is_ws(
            #[trigger] s@.skip(k - 1)[i],
        ) by {
            if i > 0 {
                assert(s@.skip(k as int)[i - 1] == s@.skip(k - 1)[i]);
            }
        }
        k = k - 1;
    }
    proof {
        lemma_trim_end_take(s@, k as int);
        assert(s@.subrange(0, k as int) =~= s@.take(k as int));
    }
    slice_subrange(s, 0, k)
}

/// `s` without the white space at both ends.
pub fn trimmed<'a>(s: &'a [char]) -> (res: &'a [char])
    ensures
        res@ == trim(s@),
{
    trimmed_end(trimmed_start(s))
}

/// Trimming leaves nothing exactly where there was only white space.
pub proof fn lemma_trim_blank(s: Seq<char>)
    ensures
        (trim(s).len() == 0) == is_blank(s),
        (trim_start(s).len() == 0) == is_blank(s),
    decreases s.len(),
{
    if s.len() > 0 {
        if is_ws(s[0]) {
            lemma_trim_blank(s.drop_first());
            assert forall|i: int| is_blank(s.drop_first()) && 0 <= i < s.len() implies is_ws(
                #[trigger] s[i],
            ) by {
                if i > 0 {
                    assert(s.drop_first()[i - 1] == s[i]);
                }
            }
            if is_blank(s) {
                assert forall|i: int| 0 <= i < s.drop_first().len() implies is_ws(
                    #[trigger] s.drop_first()[i],
                ) by {
                    assert(s.drop_first()[i] == s[i + 1]);
                }
            }
        } else {
            lemma_trim_end_keeps_head(s);
        }
    }
}

proof fn lemma_trim_end_keeps_head(s: Seq<char>)
    requires
        s.len() > 0,
        !is_ws(s[0]),
    ensures
        trim_end(s).len() > 0,
    decreases s.len(),
{
    if is_ws(s.last()) {
        assert(s.drop_last()[0] == s[0]);
        lemma_trim_end_keeps_head(s.drop_last());
    }
}

/// Whether `s` holds nothing but white space.
pub fn blank(s: &[char]) -> (res: bool)
    ensures
        res == is_blank(s@),
        res == (trim(s@).len() == 0),
{
    proof {
        lemma_trim_blank(s@);
    }
    for i in 0..s.len()
        invariant
            forall|k: int| 0 <= k < i ==> is_ws(#[trigger] s@[k]),
            is_blank(s@) == (trim(s@).len() == 0),
    {
        if !is_whitespace(s[i]) {
            return false;
        }
    }
    true
}

/// `s` without the characters `c` at its end.
pub fn trimmed_end_char<'a>(s: &'a [char], c: char) -> (res: &'a [char])
    ensures
        res@ == trim_end_char(s@, c),
{
    let mut k: usize = s.len();
    assert(s@.take(k as int) =~= s@);
    while k > 0 && s[k - 1] == c
        invariant
            k <= s@.len(),
            trim_end_char(s@, c) == trim_end_char(s@.take(k as int), c),
        decreases k,
    {
        assert(s@.take(k as int).drop_last() =~= s@.take(k - 1));
        k = k - 1;
    }
    assert(s@.subrange(0, k as int) =~= s@.take(k as int));
    slice_subrange(s, 0, k)
}

// ---------------------------------------------------------------------------------------------
// Searching
// ---------------------------------------------------------------------------------------------
/// Whether `s` starts with `p`.
pub open spec fn has_prefix(s: Seq<char>, p: Seq<char>) -> bool {
    p.len() <= s.len() && s.take(p.len() as int) == p
}

/// Whether `p` stands in `s` at position `i`.
pub open spec fn occurs_at(s: Seq<char>, p: Seq<char>, i: int) -> bool {
    0 <= i && i + p.len() <= s.len() && s.subrange(i, i + p.len()) == p
}

/// Whether `p` stands somewhere in `s`.
pub open spec fn occurs(s: Seq<char>, p: Seq<char>) -> bool {
    exists|i: int| occurs_at(s, p, i)
}

/// Whether the pattern `p` stands in `s` at position `i`.
pub fn matches_at(s: &[char], p: &[char], i: usize) -> (res: bool)
    requires
        i <= s@.len(),
    ensures
        res == occurs_at(s@, p@, i as int),
{
    if p.len() > s.len() - i {
        return false;
    }
    for k in 0..p.len()
        invariant
            i + p@.len() <= s@.len(),
            s@.len() <= usize::MAX,
            forall|j: int| 0 <= j < k ==> s@[i + j] == p@[j],
    {
        if s[i + k] != p[k] {
            assert(s@.subrange(i as int, i + p@.len())[k as int] != p@[k as int]);
            return false;
        }
    }
    assert(s@.subrange(i as int, i + p@.len()) =~= p@);
    true
}

/// Whether `s` starts with `text`.
pub fn starts_with(s: &[char], text: &str) -> (res: bool)
    ensures
        res == has_prefix(s@, text@),
{
    let p = to_chars(text);
    assert(p@.len() <= s@.len() ==> s@.subrange(0, p@.len() as int) =~= s@.take(p@.len() as int));
    matches_at(s, p.as_slice(), 0)
}

/// Whether `p` stands somewhere in `s`.
pub fn contains_chars(s: &[char], p: &[char]) -> (res: bool)
    ensures
        res == occurs(s@, p@),
{
    let mut i: usize = 0;
    while i < s.len()
        invariant
            i <= s@.len(),
            forall|j: int| 0 <= j < i ==> !occurs_at(s@, p@, j),
        decreases s@.len() - i,
    {
        if matches_at(s, p, i) {
            return true;
        }
        i = i + 1;
    }
    matches_at(s, p, i)
}

/// Whether `text` stands somewhere in `s`.
pub fn contains_text(s: &[char], text: &str) -> (res: bool)
    ensures
        res == occurs(s@, text@),
{
    let p = to_chars(text);
    contains_chars(s, p.as_slice())
}

/// The number of characters `c` in `s`.
pub open spec fn count_char(s: Seq<char>, c: char) -> nat
    decreases s.len(),
{
    if s.len() == 0 {
        0
    } else {
        count_char(s.drop_last(), c) + if s.last() == c {
            1nat
        } else {
            0nat
        }
    }
}

/// The number of characters `c` in `s`.
pub fn count_of(s: &[char], c: char) -> (res: usize)
    ensures
        res == count_char(s@, c),
        res <= s@.len(),
{
    let mut n: usize = 0;
    assert(s@.take(0) =~= Seq::<char>::empty());
    for i in 0..s.len()
        invariant
            n == count_char(s@.take(i as int), c),
            n <= i,
    {
        assert(s@.take(i + 1).drop_last() =~= s@.take(i as int));
        if s[i] == c {
            n = n + 1;
        }
    }
    assert(s@.take(s@.len() as int) =~= s@);
    n
}

/// A count over a concatenation is the sum of the counts.
pub proof fn lemma_count_add(a: Seq<char>, b: Seq<char>, c: char)
    ensures
        count_char(a + b, c) == count_char(a, c) + count_char(b, c),
    decreases b.len(),
{
    if b.len() == 0 {
        assert(a + b =~= a);
    } else {
        assert((a + b).drop_last() =~= a + b.drop_last());
        lemma_count_add(a, b.drop_last(), c);
    }
}

/// No text holds more of a character than it holds characters.
pub proof fn lemma_count_bound(s: Seq<char>, c: char)
    ensures
        count_char(s, c) <= s.len(),
    decreases s.len(),
{
    if s.len() > 0 {
        lemma_count_bound(s.drop_last(), c);
    }
}

// ---------------------------------------------------------------------------------------------
// Splitting
// ---------------------------------------------------------------------------------------------
/// What a text is cut at.
#[derive(Clone, Copy, Debug, PartialEq, Eq)]
pub enum Separator {
    /// Line feeds.
    Newline,
    /// Underscores.
    Underscore,
    /// White space.
    Whitespace,
    /// Whatever is neither alphanumeric nor an underscore.
    NonWord,
}

/// Whether `c` separates the pieces of a text.
pub open spec fn separates(sep: Separator, c: char) -> bool {
    match sep {
        Separator::Newline => c == '\n',
        Separator::Underscore => c == '_',
        Separator::Whitespace => is_ws(c),
        Separator::NonWord => !is_word_char(c),
    }
}

/// Whether `c` separates the pieces of a text.
pub fn is_separator(sep: Separator, c: char) -> (res: bool)
    ensures
        res == separates(sep, c),
{
    match sep {
        Separator::Newline => c == '\n',
        Separator::Underscore => c == '_',
        Separator::Whitespace => is_whitespace(c),
        Separator::NonWord => !(c.is_alphanumeric() || c == '_'),
    }
}

/// The pieces of `s` between separators, empty ones too: one more than there are separators.
pub open spec fn pieces(s: Seq<char>, sep: Separator) -> Seq<Seq<char>>
    decreases s.len(),
{
    if s.len() == 0 {
        seq![Seq::<char>::empty()]
    } else {
        let before = pieces(s.drop_last(), sep);
        if separates(sep, s.last()) {
            before.push(Seq::<char>::empty())
        } else {
            before.drop_last().push(before.last().push(s.last()))
        }
    }
}

/// The texts that slices of characters spell.
pub open spec fn views(v: Seq<&[char]>) -> Seq<Seq<char>> {
    v.map_values(|l: &[char]| l@)
}

/// There is always a last piece.
pub proof fn lemma_pieces_nonempty(s: Seq<char>, sep: Separator)
    ensures
        pieces(s, sep).len() >= 1,
    decreases s.len(),
{
    if s.len() > 0 {
        lemma_pieces_nonempty(s.drop_last(), sep);
    }
}

/// The pieces of `s` between separators.
pub fn split<'a>(s: &'a [char], sep: Separator) -> (res: Vec<&'a [char]>)
    ensures
        views(res@) == pieces(s@, sep),
        res@.len() >= 1,
{
    let mut out: Vec<&'a [char]> = Vec::new();
    let mut start: usize = 0;
    assert(s@.take(0) =~= Seq::<char>::empty());
    assert(views(out@).push(s@.subrange(0, 0)) =~= pieces(s@.take(0), sep));
    for i in 0..s.len()
        invariant
            start <= i,
            views(out@).push(s@.subrange(start as int, i as int)) == pieces(s@.take(i as int), sep),
    {
        let ghost before = pieces(s@.take(i as int), sep);
        assert(s@.take(i + 1).drop_last() =~= s@.take(i as int));
        assert(before.drop_last() =~= views(out@));
        assert(before.last() == s@.subrange(start as int, i as int));
        if is_separator(sep, s[i]) {
            let piece = slice_subrange(s, start, i);
            let ghost old_views = views(out@);
            out.push(piece);
            start = i + 1;
            assert(views(out@) =~= old_views.push(piece@));
            assert(s@.subrange(start as int, i + 1) =~= Seq::<char>::empty());
            assert(views(out@).push(s@.subrange(start as int, i + 1)) =~= pieces(
                s@.take(i + 1),
                sep,
            ));
        } else {
            assert(s@.subrange(start as int, i + 1) =~= s@.subrange(start as int, i as int).push(
                s@[i as int],
            ));
        }
    }
    let ghost old_views = views(out@);
    out.push(slice_subrange(s, start, s.len()));
    assert(views(out@) =~= old_views.push(s@.subrange(start as int, s@.len() as int)));
    assert(s@.take(s@.len() as int) =~= s@);
    out
}

/// The pieces that are not empty, in order.
pub open spec fn non_empty(parts: Seq<Seq<char>>) -> Seq<Seq<char>> {
    parts.filter(|p: Seq<char>| p.len() > 0)
}

/// The pieces of `s` that are not empty.
pub fn split_non_empty<'a>(s: &'a [char], sep: Separator) -> (res: Vec<&'a [char]>)
    ensures
        views(res@) == non_empty(pieces(s@, sep)),
{
    let all = split(s, sep);
    let mut out: Vec<&'a [char]> = Vec::new();
    let ghost full = views(all@);
    let ghost keep = |p: Seq<char>| p.len() > 0;
    proof {
        reveal(Seq::filter);
        assert(full.take(0).filter(keep) =~= Seq::<Seq<char>>::empty());
    }
    for i in 0..all.len()
        invariant
            full == views(all@),
            keep == (|p: Seq<char>| p.len() > 0),
            views(out@) == full.take(i as int).filter(keep),
    {
        let p = all[i];
        let ghost old_views = views(out@);
        proof {
            reveal(Seq::filter);
            assert(full.take(i + 1).drop_last() =~= full.take(i as int));
            assert(full.take(i + 1).last() == p@);
        }
        if p.len() > 0 {
            out.push(p);
            assert(views(out@) =~= old_views.push(p@));
        }
    }
    assert(full.take(full.len() as int) =~= full);
    out
}

/// `s` without one carriage return at its end.
pub open spec fn strip_cr(s: Seq<char>) -> Seq<char> {
    if s.len() > 0 && s.last() == '\r' {
        s.drop_last()
    } else {
        s
    }
}

/// The lines of `s`. A line ends at a line feed, or at a carriage return and line feed; the
/// last one needs no ending, and an ending at the end of `s` starts no further line.
pub open spec fn lines(s: Seq<char>) -> Seq<Seq<char>> {
    let parts = pieces(s, Separator::Newline);
    let ended = parts.drop_last().map_values(|p: Seq<char>| strip_cr(p));
    if parts.last().len() == 0 {
        ended
    } else {
        ended.push(parts.last())
    }
}

/// The lines of `s`.
pub fn split_lines<'a>(s: &'a [char]) -> (res: Vec<&'a [char]>)
    ensures
        views(res@) == lines(s@),
{
    let parts = split(s, Separator::Newline);
    let ghost all = pieces(s@, Separator::Newline);
    let ghost ended = all.drop_last().map_values(|p: Seq<char>| strip_cr(p));
    let mut out: Vec<&'a [char]> = Vec::new();
    let last: usize = parts.len() - 1;
    for i in 0..last
        invariant
            last == parts@.len() - 1,
            views(parts@) == all,
            ended == all.drop_last().map_values(|p: Seq<char>| strip_cr(p)),
            views(out@) == ended.take(i as int),
    {
        let p = parts[i];
        assert(all[i as int] == p@);
        let ghost old_views = views(out@);
        if p.len() > 0 && p[p.len() - 1] == '\r' {
            let q = slice_subrange(p, 0, p.len() - 1);
            assert(q@ =~= p@.drop_last());
            out.push(q);
            assert(views(out@) =~= old_views.push(q@));
        } else {
            out.push(p);
            assert(views(out@) =~= old_views.push(p@));
        }
        assert(ended.take(i + 1) =~= ended.take(i as int).push(ended[i as int]));
    }
    assert(ended.take(last as int) =~= ended);
    let p = parts[last];
    assert(all.last() == p@);
    if p.len() > 0 {
        let ghost old_views = views(out@);
        out.push(p);
        assert(views(out@) =~= old_views.push(p@));
    }
    out
}

/// The number of characters in all of `parts`.
pub open spec fn total_len(parts: Seq<Seq<char>>) -> nat
    decreases parts.len(),
{
    if parts.len() == 0 {
        0
    } else {
        total_len(parts.drop_last()) + parts.last().len()
    }
}

/// The pieces and the separators make up the text.
pub proof fn lemma_pieces_total(s: Seq<char>, sep: Separator)
    ensures
        total_len(pieces(s, sep)) + pieces(s, sep).len() == s.len() + 1,
    decreases s.len(),
{
    reveal_with_fuel(total_len, 2);
    lemma_pieces_nonempty(s, sep);
    if s.len() == 0 {
        assert(pieces(s, sep).drop_last() =~= Seq::<Seq<char>>::empty());
    } else {
        let before = pieces(s.drop_last(), sep);
        lemma_pieces_nonempty(s.drop_last(), sep);
        lemma_pieces_total(s.drop_last(), sep);
        if separates(sep, s.last()) {
            assert(pieces(s, sep).drop_last() =~= before);
        } else {
            assert(pieces(s, sep).drop_last() =~= before.drop_last());
        }
    }
}

proof fn lemma_total_strip(parts: Seq<Seq<char>>)
    ensures
        total_len(parts.map_values(|p: Seq<char>| strip_cr(p))) <= total_len(parts),
    decreases parts.len(),
{
    let f = |p: Seq<char>| strip_cr(p);
    if parts.len() > 0 {
        lemma_total_strip(parts.drop_last());
        assert(parts.map_values(f).drop_last() =~= parts.drop_last().map_values(f));
    }
}

/// The lines of a text hold no more characters than the text, and a text has no more lines
/// than characters.
pub proof fn lemma_lines_total(s: Seq<char>)
    ensures
        total_len(lines(s)) <= s.len(),
        lines(s).len() <= s.len(),
{
    let sep = Separator::Newline;
    let parts = pieces(s, sep);
    lemma_pieces_nonempty(s, sep);
    lemma_pieces_total(s, sep);
    let ended = parts.drop_last().map_values(|p: Seq<char>| strip_cr(p));
    lemma_total_strip(parts.drop_last());
    if parts.last().len() > 0 {
        assert(lines(s).drop_last() =~= ended);
    }
}

/// There is one piece more than there are line feeds.
pub proof fn lemma_newline_pieces(s: Seq<char>)
    ensures
        pieces(s, Separator::Newline).len() == count_char(s, '\n') + 1,
    decreases s.len(),
{
    if s.len() > 0 {
        lemma_newline_pieces(s.drop_last());
    }
}

/// A text has a line for every line feed, and one more if something follows the last.
pub proof fn lemma_line_count(s: Seq<char>)
    ensures
        lines(s).len() == count_char(s, '\n') + if s.len() > 0 && s.last() != '\n' {
            1nat
        } else {
            0nat
        },
{
    lemma_newline_pieces(s);
    if s.len() > 0 {
        lemma_pieces_nonempty(s.drop_last(), Separator::Newline);
    }
}

// ---------------------------------------------------------------------------------------------
// Joining
// ---------------------------------------------------------------------------------------------
/// The texts of `parts`, in order, with `sep` between any two.
pub open spec fn join(parts: Seq<Seq<char>>, sep: Seq<char>) -> Seq<char>
    decreases parts.len(),
{
    if parts.len() == 0 {
        Seq::<char>::empty()
    } else {
        let head = parts.drop_last();
        if head.len() == 0 {
            parts.last()
        } else {
            join(head, sep) + sep + parts.last()
        }
    }
}

/// The texts of a list of strings.
pub open spec fn texts(v: Seq<String>) -> Seq<Seq<char>> {
    v.map_values(|s: String| s@)
}

/// The text of a string, where there is one.
pub open spec fn option_text(text: Option<String>) -> Option<Seq<char>> {
    match text {
        Some(s) => Some(s@),
        None => None,
    }
}

/// Appends the elements of `part`.
pub fn extend_chars(out: &mut Vec<char>, part: &[char])
    ensures
        final(out)@ == old(out)@ + part@,
{
    for i in 0..part.len()
        invariant
            out@ == old(out)@ + part@.take(i as int),
    {
        out.push(part[i]);
        assert(part@.take(i + 1) =~= part@.take(i as int).push(part@[i as int]));
    }
    assert(part@.take(part@.len() as int) =~= part@);
}

/// The texts of `parts` from position `from` up to `to`, with `sep` between any two.
pub fn join_range(parts: &Vec<&[char]>, from: usize, to: usize, sep: &str) -> (res: Vec<char>)
    requires
        from <= to <= parts@.len(),
    ensures
        res@ == join(views(parts@).subrange(from as int, to as int), sep@),
{
    let glue = to_chars(sep);
    let ghost all = views(parts@);
    let mut out: Vec<char> = Vec::new();
    assert(all.subrange(from as int, from as int) =~= Seq::<Seq<char>>::empty());
    for i in from..to
        invariant
            from <= to <= parts@.len(),
            all == views(parts@),
            glue@ == sep@,
            out@ == join(all.subrange(from as int, i as int), sep@),
    {
        let ghost next = all.subrange(from as int, i + 1);
        assert(next.drop_last() =~= all.subrange(from as int, i as int));
        assert(next.last() == parts@[i as int]@);
        if i > from {
            extend_chars(&mut out, glue.as_slice());
        } else {
            assert(out@ =~= Seq::<char>::empty());
            assert(out@ + parts@[i as int]@ =~= parts@[i as int]@);
        }
        extend_chars(&mut out, parts[i]);
    }
    out
}

/// The texts of `parts`, in order, with `sep` between any two.
pub fn join_slices(parts: &Vec<&[char]>, sep: &str) -> (res: Vec<char>)
    ensures
        res@ == join(views(parts@), sep@),
{
    assert(views(parts@).subrange(0, parts@.len() as int) =~= views(parts@));
    join_range(parts, 0, parts.len(), sep)
}

/// The texts of `parts`, in order, with `sep` between any two.
pub fn join_strings(parts: &Vec<String>, sep: &str) -> (res: String)
    ensures
        res@ == join(texts(parts@), sep@),
{
    let ghost all = texts(parts@);
    let mut out = String::new();
    assert(all.take(0) =~= Seq::<Seq<char>>::empty());
    for i in 0..parts.len()
        invariant
            all == texts(parts@),
            out@ == join(all.take(i as int), sep@),
    {
        let ghost next = all.take(i + 1);
        assert(next.drop_last() =~= all.take(i as int));
        assert(next.last() == parts@[i as int]@);
        if i > 0 {
            crate::text::append_text(&mut out, sep);
        } else {
            assert(out@ + parts@[i as int]@ =~= parts@[i as int]@);
        }
        crate::text::append_text(&mut out, parts[i].as_str());
    }
    assert(all.take(all.len() as int) =~= all);
    out
}

// ---------------------------------------------------------------------------------------------
// Replacing
// ---------------------------------------------------------------------------------------------
/// `s` with every occurrence of `from`, which is not empty, replaced by `to`: from left to
/// right, and never twice over the same characters.
pub open spec fn replace_all(s: Seq<char>, from: Seq<char>, to: Seq<char>) -> Seq<char>
    decreases s.len(),
{
    if s.len() == 0 || from.len() == 0 {
        s
    } else if has_prefix(s, from) {
        to + replace_all(s.skip(from.len() as int), from, to)
    } else {
        seq![s[0]] + replace_all(s.drop_first(), from, to)
    }
}

/// `s` with the first occurrence of `from`, if there is one, replaced by `to`.
pub open spec fn replace_first(s: Seq<char>, from: Seq<char>, to: Seq<char>) -> Seq<char>
    decreases s.len(),
{
    if has_prefix(s, from) {
        to + s.skip(from.len() as int)
    } else if s.len() == 0 {
        s
    } else {
        seq![s[0]] + replace_first(s.drop_first(), from, to)
    }
}

proof fn lemma_prefix_of_skip(s: Seq<char>, p: Seq<char>, i: int)
    requires
        0 <= i <= s.len(),
    ensures
        has_prefix(s.skip(i), p) == occurs_at(s, p, i),
{
    if i + p.len() <= s.len() {
        assert(s.skip(i).take(p.len() as int) =~= s.subrange(i, i + p.len()));
    }
}

/// `s` with every occurrence of `from` replaced by `to`.
pub fn replaced_all(s: &[char], from: &str, to: &str) -> (res: Vec<char>)
    requires
        from@.len() > 0,
    ensures
        res@ == replace_all(s@, from@, to@),
{
    let p = to_chars(from);
    let q = to_chars(to);
    let mut out: Vec<char> = Vec::new();
    let mut i: usize = 0;
    assert(s@.skip(0) =~= s@);
    while i < s.len()
        invariant
            i <= s@.len(),
            p@ == from@,
            q@ == to@,
            from@.len() > 0,
            out@ + replace_all(s@.skip(i as int), from@, to@) == replace_all(s@, from@, to@),
        decreases s@.len() - i,
    {
        proof {
            lemma_prefix_of_skip(s@, p@, i as int);
        }
        if matches_at(s, p.as_slice(), i) {
            let ghost old_out = out@;
            extend_chars(&mut out, q.as_slice());
            proof {
                let rest = replace_all(s@.skip(i + p@.len()), from@, to@);
                assert(s@.skip(i as int).skip(p@.len() as int) =~= s@.skip(i + p@.len()));
                assert(old_out + (to@ + rest) =~= out@ + rest);
            }
            i = i + p.len();
        } else {
            let ghost old_out = out@;
            out.push(s[i]);
            proof {
                let rest = replace_all(s@.skip(i + 1), from@, to@);
                assert(s@.skip(i as int).drop_first() =~= s@.skip(i + 1));
                assert(old_out + (seq![s@[i as int]] + rest) =~= out@ + rest);
            }
            i = i + 1;
        }
    }
    proof {
        assert(s@.skip(i as int) =~= Seq::<char>::empty());
        assert(out@ + Seq::<char>::empty() =~= out@);
    }
    out
}

/// `s` with the first occurrence of `from`, if there is one, replaced by `to`.
pub fn replaced_first(s: &[char], from: &[char], to: &[char]) -> (res: Vec<char>)
    ensures
        res@ == replace_first(s@, from@, to@),
{
    let mut out: Vec<char> = Vec::new();
    let mut i: usize = 0;
    assert(s@.skip(0) =~= s@);
    while i <= s.len()
        invariant
            i <= s@.len(),
            out@ == s@.take(i as int),
            out@ + replace_first(s@.skip(i as int), from@, to@) == replace_first(s@, from@, to@),
        decreases s@.len() + 1 - i,
    {
        proof {
            lemma_prefix_of_skip(s@, from@, i as int);
        }
        if matches_at(s, from, i) {
            let ghost old_out = out@;
            extend_chars(&mut out, to);
            let tail = slice_subrange(s, i + from.len(), s.len());
            extend_chars(&mut out, tail);
            proof {
                assert(s@.skip(i as int).skip(from@.len() as int) =~= tail@);
                assert(old_out + (to@ + tail@) =~= out@);
            }
            return out;
        }
        if i == s.len() {
            proof {
                assert(s@.skip(i as int) =~= Seq::<char>::empty());
                assert(out@ + Seq::<char>::empty() =~= out@);
            }
            return out;
        }
        let ghost old_out = out@;
        out.push(s[i]);
        proof {
            let rest = replace_first(s@.skip(i + 1), from@, to@);
            assert(s@.skip(i as int).drop_first() =~= s@.skip(i + 1));
            assert(old_out + (seq![s@[i as int]] + rest) =~= out@ + rest);
            assert(s@.take(i + 1) =~= s@.take(i as int).push(s@[i as int]));
        }
        i = i + 1;
    }
    out
}

/// Where `from` does not stand in `s`, there is nothing to replace.
pub proof fn lemma_nothing_to_replace(s: Seq<char>, from: Seq<char>, to: Seq<char>)
    requires
        !occurs(s, from),
    ensures
        replace_all(s, from, to) == s,
    decreases s.len(),
{
    if s.len() > 0 && from.len() > 0 {
        if has_prefix(s, from) {
            assert(s.subrange(0, from.len() as int) =~= s.take(from.len() as int));
            assert(occurs_at(s, from, 0));
        } else {
            let tail = s.drop_first();
            assert(!occurs(tail, from)) by {
                if occurs(tail, from) {
                    let i = choose|i: int| occurs_at(tail, from, i);
                    assert(tail.subrange(i, i + from.len()) =~= s.subrange(
                        i + 1,
                        i + 1 + from.len(),
                    ));
                    assert(occurs_at(s, from, i + 1));
                }
            }
            lemma_nothing_to_replace(tail, from, to);
            assert(seq![s[0]] + tail =~= s);
        }
    }
}

/// A piece holds no separator.
pub proof fn lemma_piece_unseparated(s: Seq<char>, sep: Separator, i: int, k: int)
    requires
        0 <= i < pieces(s, sep).len(),
        0 <= k < pieces(s, sep)[i].len(),
    ensures
        !separates(sep, pieces(s, sep)[i][k]),
    decreases s.len(),
{
    if s.len() > 0 {
        let before = pieces(s.drop_last(), sep);
        lemma_pieces_nonempty(s.drop_last(), sep);
        if separates(sep, s.last()) {
            if i < before.len() {
                lemma_piece_unseparated(s.drop_last(), sep, i, k);
            }
        } else if i < before.len() - 1 {
            lemma_piece_unseparated(s.drop_last(), sep, i, k);
        } else if k < before.last().len() {
            lemma_piece_unseparated(s.drop_last(), sep, i, k);
        }
    }
}

/// Whether a text holds no separator.
pub open spec fn unseparated(s: Seq<char>, sep: Separator) -> bool {
    forall|k: int| 0 <= k < s.len() ==> !separates(sep, #[trigger] s[k])
}

/// A text without separators that is appended joins the last piece.
pub proof fn lemma_pieces_extended(s: Seq<char>, w: Seq<char>, sep: Separator)
    requires
        unseparated(w, sep),
    ensures
        pieces(s + w, sep) == pieces(s, sep).drop_last().push(pieces(s, sep).last() + w),
    decreases w.len(),
{
    lemma_pieces_nonempty(s, sep);
    if w.len() == 0 {
        assert(s + w =~= s);
        assert(pieces(s, sep).last() + w =~= pieces(s, sep).last());
        assert(pieces(s, sep).drop_last().push(pieces(s, sep).last()) =~= pieces(s, sep));
    } else {
        let head = w.drop_last();
        assert forall|k: int| 0 <= k < head.len() implies !separates(sep, #[trigger] head[k]) by {
            assert(head[k] == w[k]);
        }
        lemma_pieces_extended(s, head, sep);
        assert((s + w).drop_last() =~= s + head);
        assert((s + w).last() == w[w.len() - 1]);
        let before = pieces(s, sep).drop_last().push(pieces(s, sep).last() + head);
        assert(before.drop_last() =~= pieces(s, sep).drop_last());
        assert((pieces(s, sep).last() + head).push(w.last()) =~= pieces(s, sep).last() + w);
    }
}

/// Words that are joined by a separator are the pieces of the text that they make.
pub proof fn lemma_pieces_of_join(words: Seq<Seq<char>>, glue: Seq<char>, sep: Separator)
    requires
        words.len() > 0,
        glue.len() == 1,
        separates(sep, glue[0]),
        forall|i: int| 0 <= i < words.len() ==> unseparated(#[trigger] words[i], sep),
    ensures
        pieces(join(words, glue), sep) == words,
    decreases words.len(),
{
    let head = words.drop_last();
    let w = words.last();
    let none = Seq::<char>::empty();
    assert(unseparated(words[words.len() - 1], sep));
    if head.len() == 0 {
        lemma_pieces_extended(none, w, sep);
        assert(none + w =~= w);
        assert(pieces(none, sep).drop_last().push(none + w) =~= words);
    } else {
        assert forall|i: int| 0 <= i < head.len() implies unseparated(#[trigger] head[i], sep) by {
            assert(head[i] == words[i]);
        }
        lemma_pieces_of_join(head, glue, sep);
        let text = join(head, glue) + glue;
        assert(text.drop_last() =~= join(head, glue));
        assert(pieces(text, sep) == head.push(none));
        lemma_pieces_extended(text, w, sep);
        assert(none + w =~= w);
        assert(head.push(none).drop_last() =~= head);
        assert(head.push(w) =~= words);
    }
}

// ---------------------------------------------------------------------------------------------
// Nearly the same
// ---------------------------------------------------------------------------------------------
/// Whether `a` and `b` are equal but for the character at position `k` of both.
pub open spec fn changed_at(a: Seq<char>, b: Seq<char>, k: int) -> bool {
    a.len() == b.len() && 0 <= k < a.len() && a.take(k) == b.take(k) && a.skip(k + 1) == b.skip(
        k + 1,
    )
}

/// Whether `a` is `b` with one more character, at position `k`.
pub open spec fn inserted_at(a: Seq<char>, b: Seq<char>, k: int) -> bool {
    a.len() == b.len() + 1 && 0 <= k <= b.len() && a.take(k) == b.take(k) && a.skip(k + 1)
        == b.skip(k)
}

/// Whether `a` and `b` are the same but for one character that is inserted, removed or changed.
pub open spec fn within_one_edit(a: Seq<char>, b: Seq<char>) -> bool {
    ||| a == b
    ||| exists|k: int| changed_at(a, b, k)
    ||| exists|k: int| inserted_at(a, b, k)
    ||| exists|k: int| inserted_at(b, a, k)
}

/// Whether some part of `s` is within one edit of `p`.
pub open spec fn nearly_occurs(s: Seq<char>, p: Seq<char>) -> bool {
    exists|i: int, j: int|
        0 <= i <= j <= s.len() && within_one_edit(#[trigger] s.subrange(i, j), p)
}

/// Whether `a` from position `i` on is `b` from position `j` on.
fn same_rest(a: &[char], i: usize, b: &[char], j: usize) -> (res: bool)
    requires
        i <= a@.len(),
        j <= b@.len(),
    ensures
        res == (a@.skip(i as int) == b@.skip(j as int)),
{
    let rest = slice_subrange(b, j, b.len());
    assert(rest@ =~= b@.skip(j as int));
    assert(a@.skip(i as int).len() == a@.len() - i);
    if a.len() - i != rest.len() {
        return false;
    }
    assert(a@.subrange(i as int, a@.len() as int) =~= a@.skip(i as int));
    matches_at(a, rest, i)
}

/// Whether `a` and `b` are the same but for one character that is inserted, removed or changed.
pub fn one_edit_apart(a: &[char], b: &[char]) -> (res: bool)
    ensures
        res == within_one_edit(a@, b@),
{
    let mut p: usize = 0;
    assert(a@.take(0) =~= b@.take(0));
    while p < a.len() && p < b.len() && a[p] == b[p]
        invariant
            p <= a@.len(),
            p <= b@.len(),
            a@.take(p as int) == b@.take(p as int),
        decreases a@.len() - p,
    {
        assert(a@.take(p + 1) =~= a@.take(p as int).push(a@[p as int]));
        assert(b@.take(p + 1) =~= b@.take(p as int).push(b@[p as int]));
        p = p + 1;
    }
    proof {
        lemma_first_difference(a@, b@, p as int);
        lemma_first_difference(b@, a@, p as int);
    }
    if a.len() == b.len() {
        if p == a.len() {
            assert(a@.take(p as int) =~= a@);
            assert(b@.take(p as int) =~= b@);
            return true;
        }
        assert(a@ != b@);
        let res = same_rest(a, p + 1, b, p + 1);
        assert(res == changed_at(a@, b@, p as int));
        res
    } else if p < a.len() && a.len() - 1 == b.len() {
        let res = same_rest(a, p + 1, b, p);
        assert(res == inserted_at(a@, b@, p as int));
        res
    } else if p < b.len() && b.len() - 1 == a.len() {
        let res = same_rest(b, p + 1, a, p);
        assert(res == inserted_at(b@, a@, p as int));
        res
    } else {
        false
    }
}

/// One edit between two texts can be made where they first differ.
proof fn lemma_first_difference(a: Seq<char>, b: Seq<char>, p: int)
    requires
        0 <= p <= a.len(),
        p <= b.len(),
        a.take(p) == b.take(p),
        p < a.len() && p < b.len() ==> a[p] != b[p],
    ensures
        p < a.len() ==> ((exists|k: int| changed_at(a, b, k)) ==> changed_at(a, b, p)),
        (exists|k: int| inserted_at(a, b, k)) ==> inserted_at(a, b, p),
{
    if exists|k: int| changed_at(a, b, k) {
        let k = choose|k: int| changed_at(a, b, k);
        if p < a.len() {
            if k > p {
                assert(a.take(k)[p] == b.take(k)[p]);
            }
            assert(a.skip(p + 1) =~= a.skip(k + 1).skip(p - k));
            assert(b.skip(p + 1) =~= b.skip(k + 1).skip(p - k));
        }
    }
    if exists|k: int| inserted_at(a, b, k) {
        let k = choose|k: int| inserted_at(a, b, k);
        if k > p {
            assert(a.take(k)[p] == b.take(k)[p]);
        }
        assert(a.skip(p + 1) =~= a.skip(k + 1).skip(p - k));
        assert(b.skip(p) =~= b.skip(k).skip(p - k));
    }
}

/// Whether some part of `s` that begins at position `i` is within one edit of `p`.
spec fn nearly_at(s: Seq<char>, p: Seq<char>, i: int) -> bool {
    exists|j: int| i <= j <= s.len() && within_one_edit(#[trigger] s.subrange(i, j), p)
}

/// Whether some part of `s` that begins at position `i` is within one edit of `p`.
fn matches_nearly_at(s: &[char], p: &[char], i: usize) -> (res: bool)
    requires
        i <= s@.len(),
    ensures
        res == nearly_at(s@, p@, i as int),
{
    let n = s.len();
    let shortest: usize = if p.len() > 0 {
        p.len() - 1
    } else {
        0
    };
    for d in 0..3usize
        invariant
            n == s@.len(),
            i <= n,
            shortest <= p@.len(),
            forall|j: int|
                i <= j <= n && shortest <= j - i < shortest + d ==> !within_one_edit(
                    #[trigger] s@.subrange(i as int, j),
                    p@,
                ),
    {
        if shortest <= n - i && d <= n - i - shortest {
            let part = slice_subrange(s, i, i + shortest + d);
            if one_edit_apart(part, p) {
                return true;
            }
        }
    }
    assert forall|j: int| i <= j <= n implies !within_one_edit(
        #[trigger] s@.subrange(i as int, j),
        p@,
    ) by {
        let part = s@.subrange(i as int, j);
        if within_one_edit(part, p@) {
            assert(p@.len() - 1 <= part.len() <= p@.len() + 1);
        }
    }
    false
}

/// Whether some part of `s` is within one edit of `p`.
pub fn contains_nearly(s: &[char], p: &[char]) -> (res: bool)
    ensures
        res == nearly_occurs(s@, p@),
{
    let mut i: usize = 0;
    while i < s.len()
        invariant
            i <= s@.len(),
            forall|a: int| 0 <= a < i ==> !#[trigger] nearly_at(s@, p@, a),
        decreases s@.len() - i,
    {
        if matches_nearly_at(s, p, i) {
            return true;
        }
        i = i + 1;
    }
    let res = matches_nearly_at(s, p, i);
    assert(!res ==> !nearly_occurs(s@, p@)) by {
        if nearly_occurs(s@, p@) {
            let (a, b) = choose|a: int, b: int|
                0 <= a <= b <= s@.len() && within_one_edit(#[trigger] s@.subrange(a, b), p@);
            assert(nearly_at(s@, p@, a));
        }
    }
    res
}

// ---------------------------------------------------------------------------------------------
// On strings
// ---------------------------------------------------------------------------------------------
/// A text without the white space at both ends.
pub fn trim_text(text: &str) -> (res: String)
    ensures
        res@ == trim(text@),
{
    let chars = to_chars(text);
    crate::text::from_chars(trimmed(chars.as_slice()))
}

/// Whether a text holds nothing but white space.
pub fn blank_text(text: &str) -> (res: bool)
    ensures
        res == is_blank(text@),
        res == (trim(text@).len() == 0),
{
    proof {
        lemma_trim_blank(text@);
    }
    let chars = to_chars(text);
    blank(chars.as_slice())
}

/// Whether `part` occurs in a text.
pub fn text_contains(text: &str, part: &str) -> (res: bool)
    ensures
        res == occurs(text@, part@),
{
    let chars = to_chars(text);
    contains_text(chars.as_slice(), part)
}

/// Whether a text begins with `prefix`.
pub fn text_starts_with(text: &str, prefix: &str) -> (res: bool)
    ensures
        res == has_prefix(text@, prefix@),
{
    let chars = to_chars(text);
    starts_with(chars.as_slice(), prefix)
}

/// A text with every occurrence of `from` replaced by `to`, taken from the left.
pub fn replace_text(text: &str, from: &str, to: &str) -> (res: String)
    requires
        from@.len() > 0,
    ensures
        res@ == replace_all(text@, from@, to@),
{
    let chars = to_chars(text);
    crate::text::from_chars(replaced_all(chars.as_slice(), from, to).as_slice())
}

/// `s` without the copies of `p` at its start.
pub open spec fn strip_prefixes(s: Seq<char>, p: Seq<char>) -> Seq<char>
    decreases s.len(),
{
    if p.len() > 0 && has_prefix(s, p) {
        strip_prefixes(s.skip(p.len() as int), p)
    } else {
        s
    }
}

/// `s` without the copies of `p` at its start.
pub fn stripped_prefixes<'a>(s: &'a [char], p: &str) -> (res: &'a [char])
    requires
        p@.len() > 0,
    ensures
        res@ == strip_prefixes(s@, p@),
{
    let mut rest = s;
    let len = to_chars(p).len();
    while starts_with(rest, p)
        invariant
            len == p@.len(),
            len > 0,
            strip_prefixes(rest@, p@) == strip_prefixes(s@, p@),
        decreases rest@.len(),
    {
        assert(rest@.subrange(len as int, rest@.len() as int) =~= rest@.skip(len as int));
        rest = slice_subrange(rest, len, rest.len());
    }
    rest
}

/// `s` without the copies of `p` at its end.
pub open spec fn strip_suffixes(s: Seq<char>, p: Seq<char>) -> Seq<char>
    decreases s.len(),
{
    if 0 < p.len() <= s.len() && s.skip(s.len() - p.len()) == p {
        strip_suffixes(s.take(s.len() - p.len()), p)
    } else {
        s
    }
}

/// `s` without the copies of `p` at its end.
pub fn stripped_suffixes<'a>(s: &'a [char], p: &str) -> (res: &'a [char])
    requires
        p@.len() > 0,
    ensures
        res@ == strip_suffixes(s@, p@),
{
    let mut rest = s;
    let suffix = to_chars(p);
    let len = suffix.len();
    while rest.len() >= len && matches_at(rest, suffix.as_slice(), rest.len() - len)
        invariant
            suffix@ == p@,
            len == p@.len(),
            len > 0,
            strip_suffixes(rest@, p@) == strip_suffixes(s@, p@),
        decreases rest@.len(),
    {
        assert(rest@.subrange(rest@.len() - len, rest@.len() as int) =~= rest@.skip(
            rest@.len() - len,
        ));
        assert(rest@.subrange(0, rest@.len() - len) =~= rest@.take(rest@.len() - len));
        rest = slice_subrange(rest, 0, rest.len() - len);
    }
    assert(rest@.len() >= len ==> rest@.subrange(rest@.len() - len, rest@.len() as int)
        =~= rest@.skip(rest@.len() - len));
    rest
}

/// What stands between two texts occurs in what they make up, with whatever occurs in it.
pub proof fn lemma_occurs_between(a: Seq<char>, s: Seq<char>, b: Seq<char>, p: Seq<char>)
    requires
        occurs(s, p),
    ensures
        occurs(a + s + b, p),
        occurs(a + s, p),
        occurs(s + b, p),
{
    let i = choose|i: int| occurs_at(s, p, i);
    assert((a + s + b).subrange(a.len() + i, a.len() + i + p.len()) =~= p);
    assert(occurs_at(a + s + b, p, a.len() + i));
    assert((a + s).subrange(a.len() + i, a.len() + i + p.len()) =~= p);
    assert(occurs_at(a + s, p, a.len() + i));
    assert((s + b).subrange(i, i + p.len()) =~= p);
    assert(occurs_at(s + b, p, i));
}

/// What occurs in a text occurs in it with more behind it.
pub proof fn lemma_occurs_in_front(s: Seq<char>, b: Seq<char>, p: Seq<char>)
    requires
        occurs(s, p),
    ensures
        occurs(s + b, p),
{
    lemma_occurs_between(seq![], s, b, p);
}

/// What occurs in a text occurs in it with more in front of it.
pub proof fn lemma_occurs_behind(a: Seq<char>, s: Seq<char>, p: Seq<char>)
    requires
        occurs(s, p),
    ensures
        occurs(a + s, p),
{
    lemma_occurs_between(a, s, seq![], p);
}

/// A text occurs in itself.
pub proof fn lemma_occurs_whole(s: Seq<char>)
    ensures
        occurs(s, s),
{
    assert(s.subrange(0, s.len() as int) =~= s);
    assert(occurs_at(s, s, 0));
}

/// A part occurs in what the parts make up.
pub proof fn lemma_join_shows_parts(parts: Seq<Seq<char>>, sep: Seq<char>, i: int)
    requires
        0 <= i < parts.len(),
    ensures
        occurs(join(parts, sep), parts[i]),
    decreases parts.len(),
{
    let head = parts.drop_last();
    if i == parts.len() - 1 {
        lemma_occurs_whole(parts[i]);
        if head.len() > 0 {
            lemma_occurs_between(join(head, sep) + sep, parts[i], seq![], parts[i]);
        }
    } else {
        lemma_join_shows_parts(head, sep, i);
        lemma_occurs_between(seq![], join(head, sep), sep + parts.last(), parts[i]);
        assert(join(head, sep) + sep + parts.last() =~= join(head, sep) + (sep + parts.last()));
    }
}

/// The pieces of two texts behind each other: the last of the first and the first of the second
/// grow together, and the others stay.
pub proof fn lemma_pieces_concat(a: Seq<char>, b: Seq<char>, sep: Separator)
    ensures
        pieces(a + b, sep) == pieces(a, sep).drop_last() + seq![
            pieces(a, sep).last() + pieces(b, sep)[0],
        ] + pieces(b, sep).drop_first(),
    decreases b.len(),
{
    lemma_pieces_nonempty(a, sep);
    lemma_pieces_nonempty(b, sep);
    let pa = pieces(a, sep);
    let pb = pieces(b, sep);
    if b.len() == 0 {
        assert(a + b =~= a);
        assert(pa.last() + pb[0] =~= pa.last());
        assert(pa.drop_last() + seq![pa.last()] + pb.drop_first() =~= pa);
    } else {
        let head = b.drop_last();
        let c = b.last();
        lemma_pieces_concat(a, head, sep);
        lemma_pieces_nonempty(head, sep);
        assert((a + b).drop_last() =~= a + head);
        assert((a + b).last() == c);
        let ph = pieces(head, sep);
        let before = pa.drop_last() + seq![pa.last() + ph[0]] + ph.drop_first();
        if separates(sep, c) {
            assert(before.push(Seq::<char>::empty()) =~= pa.drop_last() + seq![pa.last() + pb[0]]
                + pb.drop_first());
        } else if ph.len() == 1 {
            assert((pa.last() + ph[0]).push(c) =~= pa.last() + pb[0]);
            assert(before.drop_last().push(before.last().push(c)) =~= pa.drop_last() + seq![
                pa.last() + pb[0],
            ] + pb.drop_first());
        } else {
            assert(before.last() == ph.last());
            assert(before.drop_last().push(before.last().push(c)) =~= pa.drop_last() + seq![
                pa.last() + pb[0],
            ] + pb.drop_first());
        }
    }
}

/// A separator keeps the pieces before it and behind it apart.
pub proof fn lemma_pieces_apart(a: Seq<char>, c: char, b: Seq<char>, sep: Separator)
    requires
        separates(sep, c),
    ensures
        pieces(a + seq![c] + b, sep) == pieces(a, sep) + pieces(b, sep),
{
    let head = a + seq![c];
    assert(head.drop_last() =~= a);
    lemma_pieces_concat(head, b, sep);
    lemma_pieces_nonempty(a, sep);
    lemma_pieces_nonempty(b, sep);
    let none = Seq::<char>::empty();
    assert(pieces(head, sep) == pieces(a, sep).push(none));
    assert(none + pieces(b, sep)[0] =~= pieces(b, sep)[0]);
    assert(pieces(a, sep).push(none).drop_last() =~= pieces(a, sep));
    assert(seq![pieces(b, sep)[0]] + pieces(b, sep).drop_first() =~= pieces(b, sep));
    assert(pieces(a, sep) + seq![pieces(b, sep)[0]] + pieces(b, sep).drop_first() =~= pieces(a, sep)
        + pieces(b, sep));
}

/// What has no space in it is replaced on both sides of a space by itself.
pub proof fn lemma_replace_apart(a: Seq<char>, b: Seq<char>, from: Seq<char>, to: Seq<char>)
    requires
        from.len() > 0,
        !from.contains(' '),
    ensures
        replace_all(a + seq![' '] + b, from, to) == replace_all(a, from, to) + seq![' ']
            + replace_all(b, from, to),
    decreases a.len(),
{
    let all = a + seq![' '] + b;
    let ra = replace_all(a, from, to);
    let rb = replace_all(b, from, to);
    let n = from.len() as int;
    if a.len() == 0 {
        assert(all[0] == ' ');
        assert(!has_prefix(all, from)) by {
            if has_prefix(all, from) {
                assert(all.take(n)[0] == from[0]);
                assert(from.contains(from[0]));
            }
        }
        assert(all.drop_first() =~= b);
        assert(ra =~= Seq::<char>::empty());
        assert(seq![' '] + rb =~= ra + seq![' '] + rb);
    } else {
        assert(has_prefix(all, from) == has_prefix(a, from)) by {
            if has_prefix(a, from) {
                assert(all.take(n) =~= a.take(n));
            }
            if has_prefix(all, from) {
                if n > a.len() {
                    assert(all.take(n)[a.len() as int] == ' ');
                    assert(from[a.len() as int] == ' ');
                } else {
                    assert(all.take(n) =~= a.take(n));
                }
            }
        }
        if has_prefix(a, from) {
            let rest = a.skip(n);
            lemma_replace_apart(rest, b, from, to);
            assert(all.skip(n) =~= rest + seq![' '] + b);
            assert(to + (replace_all(rest, from, to) + seq![' '] + rb) =~= ra + seq![' '] + rb);
        } else {
            let rest = a.drop_first();
            lemma_replace_apart(rest, b, from, to);
            assert(all.drop_first() =~= rest + seq![' '] + b);
            assert(seq![all[0]] + (replace_all(rest, from, to) + seq![' '] + rb) =~= ra + seq![' ']
                + rb);
        }
    }
}

/// Whatever occurs in a part occurs in what the parts make up.
pub proof fn lemma_join_shows_more(parts: Seq<Seq<char>>, sep: Seq<char>, i: int, p: Seq<char>)
    requires
        0 <= i < parts.len(),
        occurs(parts[i], p),
    ensures
        occurs(join(parts, sep), p),
    decreases parts.len(),
{
    let head = parts.drop_last();
    if i == parts.len() - 1 {
        if head.len() > 0 {
            lemma_occurs_between(join(head, sep) + sep, parts[i], seq![], p);
        }
    } else {
        lemma_join_shows_more(head, sep, i, p);
        lemma_occurs_between(seq![], join(head, sep), sep + parts.last(), p);
        assert(join(head, sep) + sep + parts.last() =~= join(head, sep) + (sep + parts.last()));
    }
}

/// Counting a character is counting the places that hold it.
pub proof fn lemma_count_is_filter(s: Seq<char>, c: char)
    ensures
        count_char(s, c) == s.filter(|x: char| x == c).len(),
    decreases s.len(),
{
    reveal(Seq::filter);
    if s.len() > 0 {
        lemma_count_is_filter(s.drop_last(), c);
    }
}

/// The lines of a part of a text that starts and ends where lines do are lines of the text: as many
/// lines stand in front of them as there are line feeds.
pub proof fn lemma_lines_within(a: Seq<char>, t: Seq<char>, b: Seq<char>, i: int)
    requires
        0 <= i < lines(t).len(),
        a.len() == 0 || a.last() == '\n',
        b.len() == 0 || t.last() == '\n' || (b[0] == '\n' && t.last() != '\r'),
    ensures
        count_char(a, '\n') + i < lines(a + t + b).len(),
        lines(a + t + b)[count_char(a, '\n') + i] == lines(t)[i],
{
    let sep = Separator::Newline;
    let none = Seq::<char>::empty();
    let pa = pieces(a, sep);
    let pt = pieces(t, sep);
    let pb = pieces(b, sep);
    lemma_pieces_nonempty(a, sep);
    lemma_pieces_nonempty(t, sep);
    lemma_pieces_nonempty(b, sep);
    lemma_newline_pieces(a);
    let n = pa.len() - 1;
    assert(pa.last() =~= none);
    lemma_pieces_concat(a, t, sep);
    assert(none + pt[0] =~= pt[0]);
    let x = pieces(a + t, sep);
    assert(x =~= pa.drop_last() + pt);
    lemma_pieces_concat(a + t, b, sep);
    let p = pieces(a + t + b, sep);
    assert(p == x.drop_last() + seq![x.last() + pb[0]] + pb.drop_first());
    if t.len() > 0 {
        lemma_pieces_nonempty(t.drop_last(), sep);
    }
    if i < pt.len() - 1 {
        assert(p[n + i] == pt[i]);
        assert(lines(t)[i] == strip_cr(pt[i]));
        assert(lines(a + t + b)[n + i] == strip_cr(p[n + i]));
    } else {
        assert(pt.last().len() > 0);
        assert(pt.last().last() == t.last());
        if b.len() == 0 {
            assert(a + t + b =~= a + t);
            assert(lines(a + t)[n + i] == x[n + i]);
        } else {
            let rest = b.drop_first();
            assert(b =~= none + seq!['\n'] + rest);
            lemma_pieces_apart(none, '\n', rest, sep);
            lemma_pieces_nonempty(rest, sep);
            assert(pieces(none, sep) =~= seq![none]);
            assert(pb =~= seq![none] + pieces(rest, sep));
            assert(x.last() + none =~= x.last());
            assert(p[n + i] == pt[i]);
            assert(lines(a + t + b)[n + i] == strip_cr(p[n + i]));
        }
    }
}

/// Trimming takes the white space off at both ends and nothing else, whatever stands between.
pub proof fn law_trim_takes_blanks_off(a: Seq<char>, s: Seq<char>, b: Seq<char>)
    requires
        is_blank(a),
        is_blank(b),
        s.len() > 0,
        !is_ws(s[0]),
        !is_ws(s.last()),
    ensures
        trim(a + s + b) == s,
        trim_end(s + b) == s,
        trim_start(a + s) == s,
{
    let all = a + s + b;
    let k = a.len() as int;
    assert(all.take(k) =~= a);
    assert(all[k] == s[0]);
    lemma_trim_start_skip(all, k);
    let rest = s + b;
    assert(all.skip(k) =~= rest);
    let n = s.len() as int;
    assert(rest.skip(n) =~= b);
    assert(rest[n - 1] == s.last());
    lemma_trim_end_take(rest, n);
    assert(rest.take(n) =~= s);
    let front = a + s;
    assert(front.take(k) =~= a);
    assert(front[k] == s[0]);
    lemma_trim_start_skip(front, k);
    assert(front.skip(k) =~= s);
}

/// A line that is ended stands in front of the lines of what follows it, without its line end, be
/// that a line feed or a carriage return and a line feed.
pub proof fn law_lines_are_read_one_by_one(line: Seq<char>, rest: Seq<char>)
    requires
        !line.contains('\n'),
        line.len() == 0 || line.last() != '\r',
    ensures
        lines(line + seq!['\n'] + rest) == seq![line] + lines(rest),
        lines(line + seq!['\r', '\n'] + rest) == seq![line] + lines(rest),
        line.len() > 0 ==> lines(line) == seq![line],
        lines(Seq::<char>::empty()).len() == 0,
{
    let sep = Separator::Newline;
    let none = Seq::<char>::empty();
    assert forall|k: int| 0 <= k < line.len() implies !separates(sep, #[trigger] line[k]) by {}
    lemma_pieces_extended(none, line, sep);
    assert(none + line =~= line);
    assert(pieces(none, sep) =~= seq![none]);
    assert(pieces(line, sep) =~= seq![line]);
    lemma_pieces_apart(line, '\n', rest, sep);
    lemma_pieces_nonempty(rest, sep);
    lemma_line_in_front(line, rest, line + seq!['\n'] + rest);
    let long = line.push('\r');
    assert forall|k: int| 0 <= k < long.len() implies !separates(sep, #[trigger] long[k]) by {
        if k < line.len() {
            assert(long[k] == line[k]);
        }
    }
    lemma_pieces_extended(none, long, sep);
    assert(none + long =~= long);
    assert(pieces(long, sep) =~= seq![long]);
    lemma_pieces_apart(long, '\n', rest, sep);
    assert(long + seq!['\n'] + rest =~= line + seq!['\r', '\n'] + rest);
    lemma_line_in_front(long, rest, line + seq!['\r', '\n'] + rest);
    assert(strip_cr(long) =~= line);
    assert(lines(line) =~= if line.len() > 0 {
        seq![line]
    } else {
        Seq::<Seq<char>>::empty()
    });
}

proof fn lemma_line_in_front(line: Seq<char>, rest: Seq<char>, all: Seq<char>)
    requires
        pieces(all, Separator::Newline) == seq![line] + pieces(rest, Separator::Newline),
    ensures
        lines(all) == seq![strip_cr(line)] + lines(rest),
{
    let sep = Separator::Newline;
    let p = pieces(all, sep);
    let q = pieces(rest, sep);
    lemma_pieces_nonempty(rest, sep);
    assert(p.last() == q.last());
    assert(p.drop_last() =~= seq![line] + q.drop_last());
    let f = |p: Seq<char>| strip_cr(p);
    assert(p.drop_last().map_values(f) =~= seq![strip_cr(line)] + q.drop_last().map_values(f));
    assert(lines(all) =~= seq![strip_cr(line)] + lines(rest));
}

/// Replacing changes every place where the pattern stands, from the left, and nothing in front of the
/// first of them.
pub proof fn law_replacing_goes_from_the_left(
    a: Seq<char>,
    from: Seq<char>,
    b: Seq<char>,
    to: Seq<char>,
)
    requires
        from.len() > 0,
        forall|i: int| 0 <= i < a.len() ==> !#[trigger] occurs_at(a + from + b, from, i),
    ensures
        replace_all(a + from + b, from, to) == a + to + replace_all(b, from, to),
    decreases a.len(),
{
    let s = a + from + b;
    let n = from.len() as int;
    if a.len() == 0 {
        assert(s.take(n) =~= from);
        assert(s.skip(n) =~= b);
        assert(a + to + replace_all(b, from, to) =~= to + replace_all(b, from, to));
    } else {
        assert(!has_prefix(s, from)) by {
            if has_prefix(s, from) {
                assert(s.subrange(0, n) =~= s.take(n));
                assert(occurs_at(s, from, 0));
            }
        }
        let rest = a.drop_first();
        assert(s.drop_first() =~= rest + from + b);
        assert forall|i: int| 0 <= i < rest.len() implies !#[trigger] occurs_at(
            rest + from + b,
            from,
            i,
        ) by {
            if occurs_at(rest + from + b, from, i) {
                assert(s.subrange(i + 1, i + 1 + n) =~= (rest + from + b).subrange(i, i + n));
                assert(occurs_at(s, from, i + 1));
            }
        }
        law_replacing_goes_from_the_left(rest, from, b, to);
        assert(seq![s[0]] + (rest + to + replace_all(b, from, to)) =~= a + to + replace_all(
            b,
            from,
            to,
        ));
    }
}

} // verus!
