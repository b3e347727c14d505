//! Texts as vectors: every token of a text counts, with a sign, in one of a fixed number of
//! buckets.
use std::collections::hash_map::DefaultHasher;
use std::hash::Hasher;

use vstd::prelude::*;
use vstd::std_specs::hash::DefaultHasherAdditionalSpecFns;

use crate::strings::{
    lemma_pieces_apart, lemma_pieces_extended, lemma_pieces_nonempty, non_empty, pieces, separates,
    split_non_empty, texts, views, Separator,
};
use crate::text::{
    ascii_lower, ascii_lower_all, ascii_lowercase, is_word_char, to_chars, uppercase,
};

verus! {

/// How texts are turned into vectors.
#[derive(Debug, Clone, Copy)]
pub struct EmbeddingModelConfig {
    pub dimension: usize,
}

// ---------------------------------------------------------------------------------------------
// Tokens
// ---------------------------------------------------------------------------------------------
/// Whether a new part of an identifier starts at position `i`: at a capital behind a character
/// that is none.
pub open spec fn hump_at(s: Seq<char>, i: int) -> bool {
    0 < i && uppercase(s[i]) && !uppercase(s[i - 1])
}

/// The parts of a piece of an identifier, cut in front of its humps, in lower case.
pub open spec fn camel_parts(s: Seq<char>) -> Seq<Seq<char>>
    decreases s.len(),
{
    if s.len() == 0 {
        Seq::<Seq<char>>::empty()
    } else {
        let before = camel_parts(s.drop_last());
        let c = ascii_lower(s.last());
        if s.len() == 1 || hump_at(s, s.len() - 1) {
            before.push(seq![c])
        } else {
            before.drop_last().push(before.last().push(c))
        }
    }
}

/// The parts of several pieces, in order.
pub open spec fn all_camel_parts(pieces: Seq<Seq<char>>) -> Seq<Seq<char>>
    decreases pieces.len(),
{
    if pieces.len() == 0 {
        Seq::<Seq<char>>::empty()
    } else {
        all_camel_parts(pieces.drop_last()) + camel_parts(pieces.last())
    }
}

/// The parts of an identifier: cut at underscores and in front of humps.
pub open spec fn identifier_parts(s: Seq<char>) -> Seq<Seq<char>> {
    all_camel_parts(non_empty(pieces(s, Separator::Underscore)))
}

proof fn lemma_camel_parts_len(s: Seq<char>)
    ensures
        s.len() > 0 ==> camel_parts(s).len() > 0,
    decreases s.len(),
{
    if s.len() > 1 {
        lemma_camel_parts_len(s.drop_last());
    }
}

/// Adds the parts of a piece of an identifier.
fn push_camel_parts(s: &[char], out: &mut Vec<String>)
    ensures
        texts(final(out)@) == texts(old(out)@) + camel_parts(s@),
{
    let ghost before = texts(out@);
    let mut part = String::new();
    let ghost empty = Seq::<Seq<char>>::empty();
    assert(s@.take(0) =~= Seq::<char>::empty());
    assert(before + empty =~= before);
    for i in 0..s.len()
        invariant
            empty == Seq::<Seq<char>>::empty(),
            i == 0 ==> texts(out@) == before && part@.len() == 0,
            i > 0 ==> texts(out@).push(part@) == before + camel_parts(s@.take(i as int)),
            i > 0 ==> part@.len() > 0,
    {
        let ghost head = s@.take(i as int);
        let ghost next = s@.take(i + 1);
        assert(next.drop_last() =~= head);
        assert(next.last() == s@[i as int]);
        if i > 0 {
            assert(next[i - 1] == s@[i - 1]);
            proof {
                lemma_camel_parts_len(head);
                let whole = before + camel_parts(head);
                assert(whole.drop_last() =~= texts(out@));
                assert(whole.last() == part@);
                assert(whole.drop_last() =~= before + camel_parts(head).drop_last());
            }
        }
        let c = s[i];
        if i > 0 && c.is_uppercase() && !s[i - 1].is_uppercase() {
            let ghost old_texts = texts(out@);
            out.push(part);
            assert(texts(out@) =~= old_texts.push(part@));
            part = String::new();
            part.push(ascii_lowercase(c));
            assert(part@ =~= seq![ascii_lower(c)]);
            assert((before + camel_parts(head)).push(part@) =~= before + camel_parts(head).push(
                part@,
            ));
        } else {
            let ghost old_part = part@;
            part.push(ascii_lowercase(c));
            if i == 0 {
                assert(part@ =~= seq![ascii_lower(c)]);
                assert(head.len() == 0);
                assert(camel_parts(head) =~= empty);
                assert(camel_parts(next) =~= seq![part@]);
                assert(texts(out@).push(part@) =~= before + camel_parts(next));
            } else {
                assert(texts(out@).push(part@) =~= before + camel_parts(next));
            }
        }
    }
    assert(s@.take(s@.len() as int) =~= s@);
    if s.len() > 0 {
        let ghost old_texts = texts(out@);
        out.push(part);
        assert(texts(out@) =~= old_texts.push(part@));
    } else {
        assert(camel_parts(s@) =~= empty);
    }
}

/// The parts of an identifier.
pub fn split_identifier(s: &str) -> (res: Vec<String>)
    ensures
        texts(res@) == identifier_parts(s@),
{
    let chars = to_chars(s);
    let parts = split_non_empty(chars.as_slice(), Separator::Underscore);
    let ghost all = views(parts@);
    let mut out: Vec<String> = Vec::new();
    assert(all.take(0) =~= Seq::<Seq<char>>::empty());
    assert(texts(out@) =~= all_camel_parts(all.take(0)));
    for i in 0..parts.len()
        invariant
            all == views(parts@),
            texts(out@) == all_camel_parts(all.take(i as int)),
    {
        assert(all.take(i + 1).drop_last() =~= all.take(i as int));
        assert(all.take(i + 1).last() == parts@[i as int]@);
        push_camel_parts(parts[i], &mut out);
    }
    assert(all.take(all.len() as int) =~= all);
    out
}

/// The tokens of one word: the word, and its parts if there are several.
pub open spec fn word_tokens(word: Seq<char>) -> Seq<Seq<char>> {
    let parts = identifier_parts(word);
    if parts.len() > 1 {
        seq![word] + parts
    } else {
        seq![word]
    }
}

/// The tokens of several words, in order.
pub open spec fn all_word_tokens(words: Seq<Seq<char>>) -> Seq<Seq<char>>
    decreases words.len(),
{
    if words.len() == 0 {
        Seq::<Seq<char>>::empty()
    } else {
        all_word_tokens(words.drop_last()) + word_tokens(ascii_lower_all(words.last()))
    }
}

/// The tokens of a text: its words, cut at whatever no identifier has, in lower case.
pub open spec fn tokens(text: Seq<char>) -> Seq<Seq<char>> {
    all_word_tokens(non_empty(pieces(text, Separator::NonWord)))
}

/// A word in lower case.
fn lower_word(s: &[char]) -> (res: String)
    ensures
        res@ == ascii_lower_all(s@),
{
    let mut out = String::new();
    for i in 0..s.len()
        invariant
            out@ == ascii_lower_all(s@.take(i as int)),
    {
        out.push(ascii_lowercase(s[i]));
        assert(ascii_lower_all(s@.take(i + 1)) =~= ascii_lower_all(s@.take(i as int)).push(
            ascii_lower(s@[i as int]),
        ));
    }
    assert(s@.take(s@.len() as int) =~= s@);
    out
}

/// The tokens of a text.
pub fn tokenize(text: &str) -> (res: Vec<String>)
    ensures
        texts(res@) == tokens(text@),
{
    let chars = to_chars(text);
    let words = split_non_empty(chars.as_slice(), Separator::NonWord);
    let ghost all = views(words@);
    let mut out: Vec<String> = Vec::new();
    assert(all.take(0) =~= Seq::<Seq<char>>::empty());
    assert(texts(out@) =~= all_word_tokens(all.take(0)));
    for i in 0..words.len()
        invariant
            all == views(words@),
            texts(out@) == all_word_tokens(all.take(i as int)),
    {
        assert(all.take(i + 1).drop_last() =~= all.take(i as int));
        assert(all.take(i + 1).last() == words@[i as int]@);
        let ghost before = texts(out@);
        let word = lower_word(words[i]);
        let mut parts = split_identifier(word.as_str());
        let ghost cut = texts(parts@);
        let ghost w = word@;
        out.push(word);
        assert(texts(out@) =~= before + seq![w]);
        if parts.len() > 1 {
            let ghost joined = out@ + parts@;
            out.append(&mut parts);
            assert(texts(joined) =~= before + (seq![w] + cut));
        }
    }
    assert(all.take(all.len() as int) =~= all);
    out
}

// ---------------------------------------------------------------------------------------------
// Buckets
// ---------------------------------------------------------------------------------------------
/// The hash of a token: that of its bytes and one byte behind them that no text has.
pub open spec fn token_hash(token: Seq<char>) -> u64 {
    DefaultHasher::spec_finish(seq![vstd::utf8::encode_utf8(token), seq![0xffu8]])
}

/// The hash of a token.
pub fn hash_token(token: &str) -> (res: u64)
    ensures
        res == token_hash(token@),
{
    let mut hasher = DefaultHasher::new();
    hasher.write(token.as_bytes());
    let mut end: Vec<u8> = Vec::new();
    end.push(0xff);
    hasher.write(end.as_slice());
    proof {
        assert(end@ =~= seq![0xffu8]);
        assert(hasher@ =~= seq![vstd::utf8::encode_utf8(token@), seq![0xffu8]]);
    }
    hasher.finish()
}

/// No bucket counts further than this, up or down: from here on a single-precision sum of
/// ones stands still.
pub const COUNT_LIMIT: i32 = 16_777_216;

/// A count one up or one down.
pub open spec fn count_step(count: int, up: bool) -> int {
    if up {
        if count < COUNT_LIMIT {
            count + 1
        } else {
            count
        }
    } else {
        if count > -COUNT_LIMIT {
            count - 1
        } else {
            count
        }
    }
}

/// The counts with one token more: up in its bucket if its hash is even, and else down.
pub open spec fn add_token(counts: Seq<int>, token: Seq<char>) -> Seq<int> {
    let hash = token_hash(token);
    let bucket = (hash as int) % (counts.len() as int);
    counts.update(bucket, count_step(counts[bucket], hash % 2 == 0))
}

/// The counts of a list of tokens.
pub open spec fn token_counts(dimension: nat, list: Seq<Seq<char>>) -> Seq<int>
    decreases list.len(),
{
    if list.len() == 0 {
        Seq::new(dimension, |i: int| 0int)
    } else {
        add_token(token_counts(dimension, list.drop_last()), list.last())
    }
}

/// Counts as integers.
pub open spec fn counts_of(v: Seq<i32>) -> Seq<int> {
    v.map_values(|c: i32| c as int)
}

/// Turns texts into vectors of a fixed dimension.
pub struct SemanticSearcher {
    dimension: usize,
}

impl SemanticSearcher {
    /// The number of buckets.
    pub closed spec fn dim(&self) -> nat {
        self.dimension as nat
    }

    /// A searcher with `dimension` buckets.
    pub fn new(dimension: usize) -> (res: Self)
        ensures
            res.dim() == dimension,
    {
        SemanticSearcher { dimension }
    }

    /// The counts of a list of tokens. Only a searcher with a bucket can count one.
    pub fn count_tokens(&self, list: &Vec<String>) -> (res: Vec<i32>)
        requires
            self.dim() > 0 || list@.len() == 0,
        ensures
            counts_of(res@) == token_counts(self.dim(), texts(list@)),
    {
        let ghost all = texts(list@);
        let mut counts: Vec<i32> = Vec::new();
        for i in 0..self.dimension
            invariant
                counts@.len() == i,
                forall|k: int| 0 <= k < i ==> counts@[k] == 0,
        {
            counts.push(0);
        }
        assert(all.take(0) =~= Seq::<Seq<char>>::empty());
        assert(counts_of(counts@) =~= token_counts(self.dim(), all.take(0)));
        for i in 0..list.len()
            invariant
                self.dim() > 0 || list@.len() == 0,
                all == texts(list@),
                counts@.len() == self.dim(),
                counts_of(counts@) == token_counts(self.dim(), all.take(i as int)),
                forall|k: int|
                    0 <= k < counts@.len() ==> -COUNT_LIMIT <= #[trigger] counts@[k] <= COUNT_LIMIT,
        {
            let hash = hash_token(list[i].as_str());
            let bucket = (hash % (self.dimension as u64)) as usize;
            proof {
                assert(all.take(i + 1).drop_last() =~= all.take(i as int));
                assert(all.take(i + 1).last() == list@[i as int]@);
                assert(counts_of(counts@)[bucket as int] == counts@[bucket as int]);
            }
            let old_count = counts[bucket];
            let new_count = if hash % 2 == 0 {
                if old_count < COUNT_LIMIT {
                    old_count + 1
                } else {
                    old_count
                }
            } else {
                if old_count > -COUNT_LIMIT {
                    old_count - 1
                } else {
                    old_count
                }
            };
            let ghost before = counts@;
            counts.set(bucket, new_count);
            assert(counts_of(counts@) =~= counts_of(before).update(
                bucket as int,
                new_count as int,
            ));
        }
        assert(all.take(all.len() as int) =~= all);
        counts
    }

    /// The counts of the tokens of a text; none where there is a token and no bucket.
    pub fn embed_counts(&self, text: &str) -> (res: Option<Vec<i32>>)
        ensures
            match res {
                Some(counts) => counts_of(counts@) == token_counts(self.dim(), tokens(text@)),
                None => self.dim() == 0 && tokens(text@).len() > 0,
            },
            self.dim() > 0 || tokens(text@).len() == 0 ==> res is Some,
    {
        let list = tokenize(text);
        assert(texts(list@).len() == list@.len());
        if self.dimension == 0 && list.len() > 0 {
            return None;
        }
        Some(self.count_tokens(&list))
    }
}

/// A text without a token is the zero vector.
pub proof fn law_no_token_zero_vector(dimension: nat, text: Seq<char>)
    requires
        tokens(text).len() == 0,
    ensures
        token_counts(dimension, tokens(text)) == Seq::new(dimension, |i: int| 0int),
{
}

/// A vector has as many counts as there are buckets, and none of them leaves the limits.
pub proof fn law_counts_bounded(dimension: nat, list: Seq<Seq<char>>)
    requires
        dimension > 0 || list.len() == 0,
    ensures
        token_counts(dimension, list).len() == dimension,
        forall|k: int|
            0 <= k < dimension ==> -COUNT_LIMIT <= #[trigger] token_counts(dimension, list)[k]
                <= COUNT_LIMIT,
    decreases list.len(),
{
    if list.len() > 0 {
        law_counts_bounded(dimension, list.drop_last());
    }
}

/// A text behind another, with a space between them, adds its tokens behind those of the other:
/// none is lost, none changes its place.
pub proof fn law_tokens_add_up(a: Seq<char>, b: Seq<char>)
    ensures
        tokens(a + seq![' '] + b) == tokens(a) + tokens(b),
{
    lemma_pieces_apart(a, ' ', b, Separator::NonWord);
    let x = pieces(a, Separator::NonWord);
    let y = pieces(b, Separator::NonWord);
    Seq::filter_distributes_over_add(x, y, |p: Seq<char>| p.len() > 0);
    lemma_word_tokens_add_up(non_empty(x), non_empty(y));
}

proof fn lemma_word_tokens_add_up(x: Seq<Seq<char>>, y: Seq<Seq<char>>)
    ensures
        all_word_tokens(x + y) == all_word_tokens(x) + all_word_tokens(y),
    decreases y.len(),
{
    if y.len() == 0 {
        assert(x + y =~= x);
        assert(all_word_tokens(x) + all_word_tokens(y) =~= all_word_tokens(x));
    } else {
        assert((x + y).drop_last() =~= x + y.drop_last());
        assert((x + y).last() == y.last());
        lemma_word_tokens_add_up(x, y.drop_last());
        let last = word_tokens(ascii_lower_all(y.last()));
        assert(all_word_tokens(x) + all_word_tokens(y.drop_last()) + last =~= all_word_tokens(x) + (
        all_word_tokens(y.drop_last()) + last));
    }
}

/// A word gives itself, in lower case, as its first token. Behind it stand its parts, where it has
/// several: the words between its underscores.
pub proof fn law_word_is_its_first_token(word: Seq<char>)
    requires
        word.len() > 0,
        forall|k: int| 0 <= k < word.len() ==> is_word_char(#[trigger] word[k]),
    ensures
        tokens(word).len() >= 1,
        tokens(word)[0] == ascii_lower_all(word),
        tokens(word).len() != 2,
        tokens(word).len() > 1 ==> tokens(word).drop_first() == identifier_parts(
            ascii_lower_all(word),
        ),
        identifier_parts(ascii_lower_all(word)).len() > 1 ==> tokens(word).len()
            == identifier_parts(ascii_lower_all(word)).len() + 1,
{
    let none = Seq::<char>::empty();
    lemma_pieces_extended(none, word, Separator::NonWord);
    assert(none + word =~= word);
    assert(pieces(word, Separator::NonWord) =~= seq![word]);
    reveal_with_fuel(Seq::filter, 2);
    assert(seq![word].drop_last() =~= Seq::<Seq<char>>::empty());
    assert(seq![word].last() == word);
    assert(non_empty(seq![word]) =~= seq![word]);
    reveal_with_fuel(all_word_tokens, 2);
    let lower = ascii_lower_all(word);
    assert(all_word_tokens(seq![word]) =~= word_tokens(lower));
    let parts = identifier_parts(lower);
    assert((seq![lower] + parts).drop_first() =~= parts);
}

/// The texts of parts, put together.
pub open spec fn glued(parts: Seq<Seq<char>>) -> Seq<char>
    decreases parts.len(),
{
    if parts.len() == 0 {
        Seq::<char>::empty()
    } else {
        glued(parts.drop_last()) + parts.last()
    }
}

proof fn lemma_camel_cut(s: Seq<char>)
    ensures
        glued(camel_parts(s)) == ascii_lower_all(s),
    decreases s.len(),
{
    if s.len() == 0 {
        assert(ascii_lower_all(s) =~= Seq::<char>::empty());
    } else {
        let head = s.drop_last();
        let n = s.len() as int;
        lemma_camel_cut(head);
        lemma_camel_parts_len(head);
        let before = camel_parts(head);
        let now = camel_parts(s);
        let c = ascii_lower(s.last());
        assert(ascii_lower_all(s) =~= ascii_lower_all(head).push(c));
        if n == 1 || hump_at(s, n - 1) {
            assert(now.drop_last() =~= before);
            assert(glued(now) =~= ascii_lower_all(s));
        } else {
            assert(now.drop_last() =~= before.drop_last());
            assert(glued(now) =~= ascii_lower_all(s));
        }
    }
}

proof fn lemma_camel_parts_glued(list: Seq<Seq<char>>)
    ensures
        glued(all_camel_parts(list)) == ascii_lower_all(glued(list)),
    decreases list.len(),
{
    if list.len() == 0 {
        assert(ascii_lower_all(glued(list)) =~= Seq::<char>::empty());
    } else {
        let head = list.drop_last();
        lemma_camel_parts_glued(head);
        lemma_camel_cut(list.last());
        lemma_glued_adds(all_camel_parts(head), camel_parts(list.last()));
        assert(ascii_lower_all(glued(head) + list.last()) =~= ascii_lower_all(glued(head))
            + ascii_lower_all(list.last()));
    }
}

proof fn lemma_glued_adds(x: Seq<Seq<char>>, y: Seq<Seq<char>>)
    ensures
        glued(x + y) == glued(x) + glued(y),
    decreases y.len(),
{
    if y.len() == 0 {
        assert(x + y =~= x);
        assert(glued(x) + glued(y) =~= glued(x));
    } else {
        assert((x + y).drop_last() =~= x + y.drop_last());
        assert((x + y).last() == y.last());
        lemma_glued_adds(x, y.drop_last());
        assert(glued(x) + glued(y.drop_last()) + y.last() =~= glued(x) + (glued(y.drop_last())
            + y.last()));
    }
}

/// The parts of an identifier, put together, are the identifier in lower case and without its
/// underscores: no letter is lost or changes its place.
pub proof fn law_parts_make_up_the_identifier(s: Seq<char>)
    ensures
        glued(identifier_parts(s)) == ascii_lower_all(s.filter(|c: char| c != '_')),
{
    let list = pieces(s, Separator::Underscore);
    lemma_camel_parts_glued(non_empty(list));
    lemma_glued_pieces(s);
    lemma_glued_non_empty(list);
}

proof fn lemma_glued_non_empty(list: Seq<Seq<char>>)
    ensures
        glued(non_empty(list)) == glued(list),
    decreases list.len(),
{
    reveal(Seq::filter);
    if list.len() > 0 {
        lemma_glued_non_empty(list.drop_last());
        if list.last().len() == 0 {
            assert(glued(list.drop_last()) + list.last() =~= glued(list.drop_last()));
        } else {
            let kept = non_empty(list.drop_last()).push(list.last());
            assert(kept.drop_last() =~= non_empty(list.drop_last()));
        }
    }
}

proof fn lemma_glued_pieces(s: Seq<char>)
    ensures
        glued(pieces(s, Separator::Underscore)) == s.filter(|c: char| c != '_'),
    decreases s.len(),
{
    reveal(Seq::filter);
    let sep = Separator::Underscore;
    let parts = pieces(s, sep);
    let none = Seq::<char>::empty();
    if s.len() == 0 {
        reveal_with_fuel(glued, 2);
        assert(parts.drop_last() =~= Seq::<Seq<char>>::empty());
        assert(none + none =~= none);
        assert(s.filter(|c: char| c != '_') =~= none);
    } else {
        let before = pieces(s.drop_last(), sep);
        lemma_pieces_nonempty(s.drop_last(), sep);
        lemma_glued_pieces(s.drop_last());
        if separates(sep, s.last()) {
            assert(parts.drop_last() =~= before);
            assert(glued(before) + none =~= glued(before));
        } else {
            assert(parts.drop_last() =~= before.drop_last());
            assert(glued(before.drop_last()) + before.last().push(s.last()) =~= (glued(
                before.drop_last(),
            ) + before.last()).push(s.last()));
        }
    }
}

/// An identifier is cut in front of every capital that follows a character that is none, and nowhere
/// else but at underscores.
pub proof fn law_identifiers_are_cut_at_humps(a: Seq<char>, b: Seq<char>)
    requires
        a.len() > 0,
        b.len() > 0,
        !a.contains('_'),
        !b.contains('_'),
    ensures
        uppercase(b[0]) && !uppercase(a.last()) ==> identifier_parts(a + b) == identifier_parts(a)
            + identifier_parts(b),
        !(uppercase(b[0]) && !uppercase(a.last())) ==> identifier_parts(a + b).len()
            == identifier_parts(a).len() + identifier_parts(b).len() - 1,
{
    lemma_plain_identifier(a);
    lemma_plain_identifier(b);
    assert(!(a + b).contains('_'));
    lemma_plain_identifier(a + b);
    lemma_camel_parts_of_two(a, b);
    lemma_camel_parts_len(a);
    lemma_camel_parts_len(b);
}

proof fn lemma_plain_identifier(s: Seq<char>)
    requires
        s.len() > 0,
        !s.contains('_'),
    ensures
        identifier_parts(s) == camel_parts(s),
{
    let none = Seq::<char>::empty();
    assert forall|k: int| 0 <= k < s.len() implies !separates(
        Separator::Underscore,
        #[trigger] s[k],
    ) by {}
    lemma_pieces_extended(none, s, Separator::Underscore);
    assert(none + s =~= s);
    assert(pieces(s, Separator::Underscore) =~= seq![s]);
    reveal_with_fuel(Seq::filter, 2);
    assert(seq![s].drop_last() =~= Seq::<Seq<char>>::empty());
    assert(seq![s].last() == s);
    assert(non_empty(seq![s]) =~= seq![s]);
    reveal_with_fuel(all_camel_parts, 2);
    assert(all_camel_parts(seq![s]) =~= camel_parts(s));
}

proof fn lemma_camel_parts_of_two(a: Seq<char>, b: Seq<char>)
    requires
        a.len() > 0,
        b.len() > 0,
    ensures
        uppercase(b[0]) && !uppercase(a.last()) ==> camel_parts(a + b) == camel_parts(a)
            + camel_parts(b),
        !(uppercase(b[0]) && !uppercase(a.last())) ==> camel_parts(a + b) == camel_parts(
            a,
        ).drop_last() + seq![camel_parts(a).last() + camel_parts(b)[0]] + camel_parts(
            b,
        ).drop_first(),
    decreases b.len(),
{
    let s = a + b;
    let n = s.len() as int;
    let head = b.drop_last();
    let pa = camel_parts(a);
    let pb = camel_parts(b);
    let c = ascii_lower(b.last());
    lemma_camel_parts_len(a);
    lemma_camel_parts_len(b);
    assert(s.drop_last() =~= a + head);
    assert(s.last() == b.last());
    if b.len() == 1 {
        assert(a + head =~= a);
        reveal_with_fuel(camel_parts, 2);
        assert(pb =~= seq![seq![c]]);
        assert(hump_at(s, n - 1) == (uppercase(b[0]) && !uppercase(a.last())));
        if hump_at(s, n - 1) {
            assert(camel_parts(s) =~= pa + pb);
        } else {
            assert(pa.last().push(c) =~= pa.last() + pb[0]);
            assert(camel_parts(s) =~= pa.drop_last() + seq![pa.last() + pb[0]] + pb.drop_first());
        }
    } else {
        lemma_camel_parts_of_two(a, head);
        lemma_camel_parts_len(head);
        let ph = camel_parts(head);
        let m = b.len() as int;
        assert(head[0] == b[0]);
        assert(s[n - 2] == b[m - 2] && s[n - 1] == b[m - 1]);
        assert(hump_at(s, n - 1) == hump_at(b, m - 1));
        let before = camel_parts(a + head);
        if uppercase(b[0]) && !uppercase(a.last()) {
            if hump_at(b, m - 1) {
                assert(before.push(seq![c]) =~= pa + pb);
            } else {
                assert(before.last() == ph.last());
                assert(before.drop_last().push(before.last().push(c)) =~= pa + pb);
            }
        } else {
            if hump_at(b, m - 1) {
                assert(pb[0] == ph[0]);
                assert(before.push(seq![c]) =~= pa.drop_last() + seq![pa.last() + pb[0]]
                    + pb.drop_first());
            } else if ph.len() == 1 {
                assert((pa.last() + ph[0]).push(c) =~= pa.last() + pb[0]);
                assert(before.drop_last().push(before.last().push(c)) =~= pa.drop_last() + seq![
                    pa.last() + pb[0],
                ] + pb.drop_first());
            } else {
                assert(before.last() == ph.last());
                assert(pb[0] == ph[0]);
                assert(before.drop_last().push(before.last().push(c)) =~= pa.drop_last() + seq![
                    pa.last() + pb[0],
                ] + pb.drop_first());
            }
        }
    }
}

/// Each token counts in the bucket of its hash, one up where the hash is even and one down where it
/// is odd: a bucket holds the difference of the two, as long as there are few enough tokens for a sum
/// of ones to grow.
pub proof fn law_buckets_hold_the_difference(dimension: nat, list: Seq<Seq<char>>, k: int)
    requires
        0 <= k < dimension,
        list.len() <= 16_777_216,
    ensures
        token_counts(dimension, list)[k] == list.filter(
            |t: Seq<char>| token_hash(t) as int % dimension as int == k && token_hash(t) % 2 == 0,
        ).len() - list.filter(
            |t: Seq<char>| token_hash(t) as int % dimension as int == k && token_hash(t) % 2 != 0,
        ).len(),
        -(list.len() as int) <= token_counts(dimension, list)[k] <= list.len(),
        token_counts(dimension, list).len() == dimension,
    decreases list.len(),
{
    reveal(Seq::filter);
    if list.len() > 0 {
        let head = list.drop_last();
        let counts = token_counts(dimension, head);
        law_buckets_hold_the_difference(dimension, head, k);
        let bucket = (token_hash(list.last()) as int) % (dimension as int);
        assert(0 <= bucket < dimension) by (nonlinear_arith)
            requires
                bucket == (token_hash(list.last()) as int) % (dimension as int),
                dimension > 0,
        ;
        law_buckets_hold_the_difference(dimension, head, bucket);
    }
}

/// The order of the tokens makes no difference to a vector.
pub proof fn law_order_of_tokens_does_not_matter(
    dimension: nat,
    a: Seq<Seq<char>>,
    b: Seq<Seq<char>>,
)
    requires
        dimension > 0,
        a.len() + b.len() <= 16_777_216,
    ensures
        token_counts(dimension, a + b) == token_counts(dimension, b + a),
{
    law_counts_bounded(dimension, a + b);
    law_counts_bounded(dimension, b + a);
    assert forall|k: int| 0 <= k < dimension implies token_counts(dimension, a + b)[k]
        == token_counts(dimension, b + a)[k] by {
        law_buckets_hold_the_difference(dimension, a + b, k);
        law_buckets_hold_the_difference(dimension, b + a, k);
        let up = |t: Seq<char>|
            token_hash(t) as int % dimension as int == k && token_hash(t) % 2 == 0;
        let down = |t: Seq<char>|
            token_hash(t) as int % dimension as int == k && token_hash(t) % 2 != 0;
        Seq::filter_distributes_over_add(a, b, up);
        Seq::filter_distributes_over_add(b, a, up);
        Seq::filter_distributes_over_add(a, b, down);
        Seq::filter_distributes_over_add(b, a, down);
    }
    assert(token_counts(dimension, a + b) =~= token_counts(dimension, b + a));
}

} // verus!
