//! Keywords: the words of a question that are worth a search.
use vstd::prelude::*;

use crate::strings::{
    blank_text, contains_chars, contains_nearly, has_prefix, is_blank, join, join_slices,
    lemma_nothing_to_replace, lemma_piece_unseparated, lemma_pieces_apart, lemma_pieces_extended,
    lemma_pieces_of_join, lemma_replace_apart, non_empty, occurs, pieces, replace_all, replace_text,
    separates, split, split_non_empty, texts, unseparated, views, within_one_edit, Separator,
};
use crate::text::{
    from_chars, is_ascii_char, is_ascii_text, is_word_char, is_ws, lowercase, same_text, to_chars,
};

verus! {

/// Words that say nothing about what a question is after.
pub open spec fn is_stop_word(w: Seq<char>) -> bool {
    ||| w == "what"@
    ||| w == "does"@
    ||| w == "how"@
    ||| w == "is"@
    ||| w == "are"@
    ||| w == "the"@
    ||| w == "a"@
    ||| w == "an"@
    ||| w == "do"@
    ||| w == "can"@
    ||| w == "you"@
    ||| w == "tell"@
    ||| w == "me"@
    ||| w == "about"@
    ||| w == "file"@
    ||| w == "script"@
    ||| w == "code"@
    ||| w == "in"@
    ||| w == "of"@
    ||| w == "for"@
    ||| w == "to"@
    ||| w == "with"@
    ||| w == "work"@
    ||| w == "where"@
    ||| w == "which"@
    ||| w == "show"@
    ||| w == "explain"@
    ||| w == "meaning"@
}

/// Whether a word says nothing about what a question is after.
pub fn stop_word(word: &str) -> (res: bool)
    ensures
        res == is_stop_word(word@),
{
    same_text(word, "what")
        || same_text(word, "does")
        || same_text(word, "how")
        || same_text(word, "is")
        || same_text(word, "are")
        || same_text(word, "the")
        || same_text(word, "a")
        || same_text(word, "an")
        || same_text(word, "do")
        || same_text(word, "can")
        || same_text(word, "you")
        || same_text(word, "tell")
        || same_text(word, "me")
        || same_text(word, "about")
        || same_text(word, "file")
        || same_text(word, "script")
        || same_text(word, "code")
        || same_text(word, "in")
        || same_text(word, "of")
        || same_text(word, "for")
        || same_text(word, "to")
        || same_text(word, "with")
        || same_text(word, "work")
        || same_text(word, "where")
        || same_text(word, "which")
        || same_text(word, "show")
        || same_text(word, "explain")
        || same_text(word, "meaning")
}

/// A question without the extensions of file names. One that begins with another is taken out before
/// that, and once more in its own place, for what the others leave behind.
pub open spec fn without_extensions(question: Seq<char>) -> Seq<char> {
    let q = question;
    let q = replace_all(q, ".cs"@, ""@);
    let q = replace_all(q, ".rs"@, ""@);
    let q = replace_all(q, ".py"@, ""@);
    let q = replace_all(q, ".json"@, ""@);
    let q = replace_all(q, ".js"@, ""@);
    let q = replace_all(q, ".ts"@, ""@);
    let q = replace_all(q, ".cpp"@, ""@);
    let q = replace_all(q, ".hlsl"@, ""@);
    let q = replace_all(q, ".h"@, ""@);
    let q = replace_all(q, ".json"@, ""@);
    let q = replace_all(q, ".toml"@, ""@);
    let q = replace_all(q, ".yaml"@, ""@);
    let q = replace_all(q, ".md"@, ""@);
    let q = replace_all(q, ".shader"@, ""@);
    let q = replace_all(q, ".hlsl"@, ""@);
    q
}

/// A question without the extensions of file names.
fn drop_extensions(question: &str) -> (res: String)
    ensures
        res@ == without_extensions(question@),
{
    proof {
        reveal_strlit(".cs");
        reveal_strlit(".rs");
        reveal_strlit(".py");
        reveal_strlit(".json");
        reveal_strlit(".js");
        reveal_strlit(".ts");
        reveal_strlit(".cpp");
        reveal_strlit(".hlsl");
        reveal_strlit(".h");
        reveal_strlit(".toml");
        reveal_strlit(".yaml");
        reveal_strlit(".md");
        reveal_strlit(".shader");
    }
    let q = replace_text(question, ".cs", "");
    let q = replace_text(q.as_str(), ".rs", "");
    let q = replace_text(q.as_str(), ".py", "");
    let q = replace_text(q.as_str(), ".json", "");
    let q = replace_text(q.as_str(), ".js", "");
    let q = replace_text(q.as_str(), ".ts", "");
    let q = replace_text(q.as_str(), ".cpp", "");
    let q = replace_text(q.as_str(), ".hlsl", "");
    let q = replace_text(q.as_str(), ".h", "");
    let q = replace_text(q.as_str(), ".json", "");
    let q = replace_text(q.as_str(), ".toml", "");
    let q = replace_text(q.as_str(), ".yaml", "");
    let q = replace_text(q.as_str(), ".md", "");
    let q = replace_text(q.as_str(), ".shader", "");
    let q = replace_text(q.as_str(), ".hlsl", "");
    q
}

/// Whether a word is worth a search.
pub open spec fn is_keyword(word: Seq<char>) -> bool {
    lowercase(word).len() > 0 && !is_stop_word(lowercase(word))
}

/// The words of a question that are worth a search.
pub open spec fn keyword_list(question: Seq<char>) -> Seq<Seq<char>> {
    pieces(without_extensions(question), Separator::NonWord).filter(|w: Seq<char>| is_keyword(w))
}

/// The words of a question that are worth a search, or the question itself where there are none.
pub open spec fn keywords(question: Seq<char>) -> Seq<char> {
    if keyword_list(question).len() == 0 {
        question
    } else {
        join(keyword_list(question), " "@)
    }
}

/// The words of a question that are worth a search, or the question itself where there are none.
pub fn extract_keywords(question: &str) -> (res: String)
    ensures
        res@ == keywords(question@),
{
    let cleaned = to_chars(drop_extensions(question).as_str());
    let words = split(cleaned.as_slice(), Separator::NonWord);
    let ghost all = views(words@);
    let ghost keep = |w: Seq<char>| is_keyword(w);
    let mut kept: Vec<&[char]> = Vec::new();
    proof {
        reveal(Seq::filter);
        assert(all.take(0).filter(keep) =~= Seq::<Seq<char>>::empty());
        assert(views(kept@) =~= Seq::<Seq<char>>::empty());
    }
    for i in 0..words.len()
        invariant
            all == views(words@),
            keep == (|w: Seq<char>| is_keyword(w)),
            views(kept@) == all.take(i as int).filter(keep),
    {
        let word = words[i];
        let ghost before = views(kept@);
        proof {
            reveal(Seq::filter);
            assert(all.take(i + 1).drop_last() =~= all.take(i as int));
            assert(all.take(i + 1).last() == word@);
        }
        let lower = from_chars(word).as_str().to_lowercase();
        if !lower.as_str().is_empty() && !stop_word(lower.as_str()) {
            kept.push(word);
            assert(views(kept@) =~= before.push(word@));
        }
    }
    assert(all.take(all.len() as int) =~= all);
    assert(views(kept@) == keyword_list(question@));
    if kept.len() == 0 {
        question.to_owned()
    } else {
        from_chars(join_slices(&kept, " ").as_slice())
    }
}

/// The keywords of a query, one by one and in lower case.
pub open spec fn query_words(query: Seq<char>) -> Seq<Seq<char>> {
    non_empty(pieces(keywords(query), Separator::Whitespace)).map_values(
        |w: Seq<char>| lowercase(w),
    )
}

/// The keywords of a query, one by one and in lower case.
pub fn lower_keywords(query: &str) -> (res: Vec<String>)
    ensures
        texts(res@) == query_words(query@),
{
    let chars = to_chars(extract_keywords(query).as_str());
    let words = split_non_empty(chars.as_slice(), Separator::Whitespace);
    let ghost all = query_words(query@);
    let mut out: Vec<String> = Vec::new();
    for i in 0..words.len()
        invariant
            all == query_words(query@),
            views(words@) == non_empty(pieces(keywords(query@), Separator::Whitespace)),
            texts(out@) == all.take(i as int),
    {
        let ghost before = texts(out@);
        let lower = from_chars(words[i]).as_str().to_lowercase();
        let ghost text = lower@;
        assert(views(words@)[i as int] == words@[i as int]@);
        assert(all[i as int] == text);
        out.push(lower);
        assert(texts(out@) =~= before.push(text));
        assert(all.take(i + 1) =~= before.push(text));
    }
    assert(all.take(all.len() as int) =~= all);
    out
}

/// Whether a line matches a keyword: the keyword stands in it, or a part of it is within one edit
/// of the keyword. Of a keyword of one character every line has such a part, so that one has to
/// stand in the line.
pub open spec fn matches_keyword(line_lower: Seq<char>, kw: Seq<char>) -> bool {
    occurs(line_lower, kw) || (kw.len() > 1 && exists|i: int, j: int|
        0 <= i <= j <= line_lower.len() && within_one_edit(
            #[trigger] line_lower.subrange(i, j),
            kw,
        ))
}

/// Whether a line matches a keyword. Both are in lower case.
pub fn line_matches_keyword(line_lower: &str, kw: &str) -> (res: bool)
    ensures
        res == matches_keyword(line_lower@, kw@),
{
    let line = to_chars(line_lower);
    let word = to_chars(kw);
    contains_chars(line.as_slice(), word.as_slice()) || (word.len() > 1 && contains_nearly(
        line.as_slice(),
        word.as_slice(),
    ))
}

/// What the index is asked: a first query, and a second where the first cannot be read.
pub open spec fn index_queries(input: Seq<char>) -> (Seq<char>, Seq<char>) {
    if is_blank(keywords(input)) {
        ("*"@, ""@)
    } else {
        (keywords(input), "*"@)
    }
}

/// What the index is asked: a first query, and a second where the first cannot be read.
pub fn queries_for(input: &str) -> (res: (String, String))
    ensures
        (res.0@, res.1@) == index_queries(input@),
{
    let words = extract_keywords(input);
    if blank_text(words.as_str()) {
        ("*".to_owned(), "".to_owned())
    } else {
        (words, "*".to_owned())
    }
}

/// No keyword is a stop word, however it is written, and each is a word of the question.
pub proof fn law_keywords_are_telling_words(question: Seq<char>, i: int)
    requires
        0 <= i < keyword_list(question).len(),
    ensures
        !is_stop_word(lowercase(keyword_list(question)[i])),
        pieces(without_extensions(question), Separator::NonWord).contains(
            keyword_list(question)[i],
        ),
{
    let words = pieces(without_extensions(question), Separator::NonWord);
    let keep = |w: Seq<char>| is_keyword(w);
    lemma_filtered(words, keep, i);
}

proof fn lemma_filtered(words: Seq<Seq<char>>, keep: spec_fn(Seq<char>) -> bool, i: int)
    requires
        0 <= i < words.filter(keep).len(),
    ensures
        keep(words.filter(keep)[i]),
        words.contains(words.filter(keep)[i]),
    decreases words.len(),
{
    reveal(Seq::filter);
    let head = words.drop_last();
    if words.len() > 0 {
        if i < head.filter(keep).len() {
            lemma_filtered(head, keep, i);
            let k = choose|k: int| 0 <= k < head.len() && head[k] == head.filter(keep)[i];
            assert(words[k] == words.filter(keep)[i]);
        } else {
            assert(words[words.len() - 1] == words.filter(keep)[i]);
        }
    }
}

proof fn lemma_without_dot(s: Seq<char>, ext: Seq<char>)
    requires
        !s.contains('.'),
        ext.len() > 0,
        ext[0] == '.',
    ensures
        replace_all(s, ext, ""@) == s,
{
    assert(!occurs(s, ext)) by {
        if occurs(s, ext) {
            let i = choose|i: int| crate::strings::occurs_at(s, ext, i);
            assert(s.subrange(i, i + ext.len())[0] == '.');
            assert(s[i] == '.');
        }
    }
    lemma_nothing_to_replace(s, ext, ""@);
}

proof fn lemma_no_extensions(s: Seq<char>)
    requires
        !s.contains('.'),
    ensures
        without_extensions(s) == s,
{
    reveal_strlit(".cs");
    reveal_strlit(".rs");
    reveal_strlit(".py");
    reveal_strlit(".json");
    reveal_strlit(".js");
    reveal_strlit(".ts");
    reveal_strlit(".cpp");
    reveal_strlit(".hlsl");
    reveal_strlit(".h");
    reveal_strlit(".toml");
    reveal_strlit(".yaml");
    reveal_strlit(".md");
    reveal_strlit(".shader");
    lemma_without_dot(s, ".cs"@);
    lemma_without_dot(s, ".rs"@);
    lemma_without_dot(s, ".py"@);
    lemma_without_dot(s, ".json"@);
    lemma_without_dot(s, ".js"@);
    lemma_without_dot(s, ".ts"@);
    lemma_without_dot(s, ".cpp"@);
    lemma_without_dot(s, ".hlsl"@);
    lemma_without_dot(s, ".h"@);
    lemma_without_dot(s, ".toml"@);
    lemma_without_dot(s, ".yaml"@);
    lemma_without_dot(s, ".md"@);
    lemma_without_dot(s, ".shader"@);
}

proof fn lemma_all_pass(words: Seq<Seq<char>>, keep: spec_fn(Seq<char>) -> bool)
    requires
        forall|i: int| 0 <= i < words.len() ==> keep(#[trigger] words[i]),
    ensures
        words.filter(keep) == words,
    decreases words.len(),
{
    reveal(Seq::filter);
    if words.len() > 0 {
        let head = words.drop_last();
        assert forall|i: int| 0 <= i < head.len() implies keep(#[trigger] head[i]) by {
            assert(head[i] == words[i]);
        }
        lemma_all_pass(head, keep);
        assert(keep(words[words.len() - 1]));
        assert(head.push(words.last()) =~= words);
    } else {
        assert(words.filter(keep) =~= words);
    }
}

proof fn lemma_join_unseparated(words: Seq<Seq<char>>, c: char)
    requires
        c != ' ',
        forall|i: int| 0 <= i < words.len() ==> !(#[trigger] words[i]).contains(c),
    ensures
        !join(words, " "@).contains(c),
    decreases words.len(),
{
    reveal_strlit(" ");
    if words.len() > 0 {
        let head = words.drop_last();
        assert forall|i: int| 0 <= i < head.len() implies !(#[trigger] head[i]).contains(c) by {
            assert(head[i] == words[i]);
        }
        lemma_join_unseparated(head, c);
        assert(!words[words.len() - 1].contains(c));
        if join(words, " "@).contains(c) && head.len() > 0 {
            let text = join(head, " "@) + " "@ + words.last();
            let k = choose|k: int| 0 <= k < text.len() && text[k] == c;
            let a = join(head, " "@).len() as int;
            if k < a {
                assert(join(head, " "@)[k] == c);
            } else if k > a {
                assert(words.last()[k - a - 1] == c);
            }
        }
    }
}

/// To take the keywords of keywords changes nothing.
pub proof fn law_keywords_of_keywords(question: Seq<char>)
    ensures
        keywords(keywords(question)) == keywords(question),
{
    let words = keyword_list(question);
    let all = pieces(without_extensions(question), Separator::NonWord);
    let keep = |w: Seq<char>| is_keyword(w);
    if words.len() > 0 {
        reveal_strlit(" ");
        let text = join(words, " "@);
        assert forall|i: int| 0 <= i < words.len() implies unseparated(
            #[trigger] words[i],
            Separator::NonWord,
        ) && !words[i].contains('.') && is_keyword(words[i]) by {
            lemma_filtered(all, keep, i);
            let m = choose|m: int| 0 <= m < all.len() && all[m] == words[i];
            assert forall|k: int| 0 <= k < words[i].len() implies !separates(
                Separator::NonWord,
                #[trigger] words[i][k],
            ) by {
                lemma_piece_unseparated(without_extensions(question), Separator::NonWord, m, k);
            }
            if words[i].contains('.') {
                let k = choose|k: int| 0 <= k < words[i].len() && words[i][k] == '.';
                assert(separates(Separator::NonWord, words[i][k]));
            }
        }
        lemma_join_unseparated(words, '.');
        lemma_no_extensions(text);
        lemma_pieces_of_join(words, " "@, Separator::NonWord);
        lemma_all_pass(words, keep);
        assert(keyword_list(text) == words);
    }
}

/// A question with a word that is worth a search gives exactly those words, in order and as they
/// are written; any other question stands for itself.
pub proof fn law_keywords_are_the_words(question: Seq<char>)
    ensures
        keyword_list(question).len() > 0 ==> pieces(keywords(question), Separator::NonWord)
            == keyword_list(question),
        keyword_list(question).len() == 0 ==> keywords(question) == question,
{
    let words = keyword_list(question);
    let all = pieces(without_extensions(question), Separator::NonWord);
    if words.len() > 0 {
        reveal_strlit(" ");
        assert forall|i: int| 0 <= i < words.len() implies unseparated(
            #[trigger] words[i],
            Separator::NonWord,
        ) by {
            lemma_filtered(all, |w: Seq<char>| is_keyword(w), i);
            let m = choose|m: int| 0 <= m < all.len() && all[m] == words[i];
            assert forall|k: int| 0 <= k < words[i].len() implies !separates(
                Separator::NonWord,
                #[trigger] words[i][k],
            ) by {
                lemma_piece_unseparated(without_extensions(question), Separator::NonWord, m, k);
            }
        }
        lemma_pieces_of_join(words, " "@, Separator::NonWord);
    }
}

proof fn lemma_extensions_apart(a: Seq<char>, b: Seq<char>)
    ensures
        without_extensions(a + seq![' '] + b) == without_extensions(a) + seq![' ']
            + without_extensions(b),
{
    reveal_strlit(".cs");
    reveal_strlit(".rs");
    reveal_strlit(".py");
    reveal_strlit(".json");
    reveal_strlit(".js");
    reveal_strlit(".ts");
    reveal_strlit(".cpp");
    reveal_strlit(".hlsl");
    reveal_strlit(".h");
    reveal_strlit(".toml");
    reveal_strlit(".yaml");
    reveal_strlit(".md");
    reveal_strlit(".shader");
    let (a, b) = lemma_extension_apart(a, b, ".cs"@);
    let (a, b) = lemma_extension_apart(a, b, ".rs"@);
    let (a, b) = lemma_extension_apart(a, b, ".py"@);
    let (a, b) = lemma_extension_apart(a, b, ".json"@);
    let (a, b) = lemma_extension_apart(a, b, ".js"@);
    let (a, b) = lemma_extension_apart(a, b, ".ts"@);
    let (a, b) = lemma_extension_apart(a, b, ".cpp"@);
    let (a, b) = lemma_extension_apart(a, b, ".hlsl"@);
    let (a, b) = lemma_extension_apart(a, b, ".h"@);
    let (a, b) = lemma_extension_apart(a, b, ".json"@);
    let (a, b) = lemma_extension_apart(a, b, ".toml"@);
    let (a, b) = lemma_extension_apart(a, b, ".yaml"@);
    let (a, b) = lemma_extension_apart(a, b, ".md"@);
    let (a, b) = lemma_extension_apart(a, b, ".shader"@);
    let (a, b) = lemma_extension_apart(a, b, ".hlsl"@);
}

proof fn lemma_extension_apart(a: Seq<char>, b: Seq<char>, ext: Seq<char>) -> (res: (
    Seq<char>,
    Seq<char>,
))
    requires
        ext.len() > 0,
        forall|i: int| 0 <= i < ext.len() ==> #[trigger] ext[i] != ' ',
    ensures
        res.0 == replace_all(a, ext, ""@),
        res.1 == replace_all(b, ext, ""@),
        replace_all(a + seq![' '] + b, ext, ""@) == res.0 + seq![' '] + res.1,
{
    lemma_replace_apart(a, b, ext, ""@);
    (replace_all(a, ext, ""@), replace_all(b, ext, ""@))
}

/// Two questions, one behind the other, have the keywords of the first and behind them those of the
/// second: none is lost, none is counted once for twice, and none changes its place.
pub proof fn law_keywords_add_up(a: Seq<char>, b: Seq<char>)
    ensures
        keyword_list(a + seq![' '] + b) == keyword_list(a) + keyword_list(b),
{
    lemma_extensions_apart(a, b);
    let x = without_extensions(a);
    let y = without_extensions(b);
    lemma_pieces_apart(x, ' ', y, Separator::NonWord);
    Seq::filter_distributes_over_add(
        pieces(x, Separator::NonWord),
        pieces(y, Separator::NonWord),
        |w: Seq<char>| is_keyword(w),
    );
}

/// A word by itself is its own keyword, as it is written, unless it is a stop word.
pub proof fn law_word_is_its_keyword(word: Seq<char>)
    requires
        forall|k: int| 0 <= k < word.len() ==> is_word_char(#[trigger] word[k]),
        lowercase(word).len() > 0,
    ensures
        !is_stop_word(lowercase(word)) ==> keyword_list(word) == seq![word] && keywords(word)
            == word,
        is_stop_word(lowercase(word)) ==> keyword_list(word).len() == 0,
{
    let none = Seq::<char>::empty();
    assert(!word.contains('.'));
    lemma_no_extensions(word);
    lemma_pieces_extended(none, word, Separator::NonWord);
    assert(none + word =~= word);
    assert(pieces(word, Separator::NonWord) =~= seq![word]);
    reveal_with_fuel(Seq::filter, 2);
    let keep = |w: Seq<char>| is_keyword(w);
    assert(seq![word].drop_last() =~= Seq::<Seq<char>>::empty());
    assert(seq![word].last() == word);
    if keep(word) {
        assert(seq![word].filter(keep) =~= seq![word]);
        reveal_with_fuel(join, 2);
    } else {
        assert(seq![word].filter(keep) =~= Seq::<Seq<char>>::empty());
    }
}

/// The words that a line is compared with are the keywords in lower case, each of them and in order.
pub proof fn law_query_words_are_keywords(query: Seq<char>)
    requires
        is_ascii_text(query),
        keyword_list(query).len() > 0,
    ensures
        query_words(query).len() == keyword_list(query).len(),
        forall|i: int|
            0 <= i < query_words(query).len() ==> #[trigger] query_words(query)[i] == lowercase(
                keyword_list(query)[i],
            ),
{
    let words = keyword_list(query);
    let short = without_extensions(query);
    let all = pieces(short, Separator::NonWord);
    lemma_extensions_keep_ascii(query);
    reveal_strlit(" ");
    assert forall|i: int| 0 <= i < words.len() implies unseparated(
        #[trigger] words[i],
        Separator::Whitespace,
    ) && words[i].len() > 0 by {
        lemma_filtered(all, |w: Seq<char>| is_keyword(w), i);
        let m = choose|m: int| 0 <= m < all.len() && all[m] == words[i];
        assert forall|k: int| 0 <= k < words[i].len() implies !separates(
            Separator::Whitespace,
            #[trigger] words[i][k],
        ) by {
            lemma_piece_unseparated(short, Separator::NonWord, m, k);
            lemma_piece_is_ascii(short, m, k);
        }
        assert(is_ascii_text(words[i])) by {
            assert forall|k: int| 0 <= k < words[i].len() implies is_ascii_char(
                #[trigger] words[i][k],
            ) by {
                lemma_piece_is_ascii(short, m, k);
            }
        }
    }
    lemma_pieces_of_join(words, " "@, Separator::Whitespace);
    lemma_all_pass(words, |p: Seq<char>| p.len() > 0);
}

proof fn lemma_piece_is_ascii(s: Seq<char>, i: int, k: int)
    requires
        is_ascii_text(s),
        0 <= i < pieces(s, Separator::NonWord).len(),
        0 <= k < pieces(s, Separator::NonWord)[i].len(),
    ensures
        is_ascii_char(pieces(s, Separator::NonWord)[i][k]),
    decreases s.len(),
{
    if s.len() > 0 {
        let head = s.drop_last();
        let before = pieces(head, Separator::NonWord);
        crate::strings::lemma_pieces_nonempty(head, Separator::NonWord);
        assert(is_ascii_text(head)) by {
            assert forall|j: int| 0 <= j < head.len() implies is_ascii_char(#[trigger] head[j]) by {
                assert(head[j] == s[j]);
            }
        }
        assert(is_ascii_char(s[s.len() - 1]));
        if i < before.len() && k < before[i].len() {
            lemma_piece_is_ascii(head, i, k);
        }
    }
}

proof fn lemma_replace_keeps_ascii(s: Seq<char>, ext: Seq<char>)
    requires
        is_ascii_text(s),
    ensures
        is_ascii_text(replace_all(s, ext, ""@)),
    decreases s.len(),
{
    reveal_strlit("");
    if s.len() > 0 && ext.len() > 0 {
        let n = ext.len() as int;
        if crate::strings::has_prefix(s, ext) {
            let rest = s.skip(n);
            assert forall|j: int| 0 <= j < rest.len() implies is_ascii_char(#[trigger] rest[j]) by {
                assert(rest[j] == s[j + n]);
            }
            lemma_replace_keeps_ascii(rest, ext);
            assert(""@ + replace_all(rest, ext, ""@) =~= replace_all(rest, ext, ""@));
        } else {
            let rest = s.drop_first();
            assert forall|j: int| 0 <= j < rest.len() implies is_ascii_char(#[trigger] rest[j]) by {
                assert(rest[j] == s[j + 1]);
            }
            lemma_replace_keeps_ascii(rest, ext);
            let tail = replace_all(rest, ext, ""@);
            assert(is_ascii_char(s[0]));
            assert forall|j: int| 0 <= j < tail.len() + 1 implies is_ascii_char(
                #[trigger] (seq![s[0]] + tail)[j],
            ) by {
                if j > 0 {
                    assert((seq![s[0]] + tail)[j] == tail[j - 1]);
                }
            }
        }
    }
}

proof fn lemma_extensions_keep_ascii(s: Seq<char>)
    requires
        is_ascii_text(s),
    ensures
        is_ascii_text(without_extensions(s)),
{
    let q = s;
    lemma_replace_keeps_ascii(q, ".cs"@);
    let q = replace_all(q, ".cs"@, ""@);
    lemma_replace_keeps_ascii(q, ".rs"@);
    let q = replace_all(q, ".rs"@, ""@);
    lemma_replace_keeps_ascii(q, ".py"@);
    let q = replace_all(q, ".py"@, ""@);
    lemma_replace_keeps_ascii(q, ".json"@);
    let q = replace_all(q, ".json"@, ""@);
    lemma_replace_keeps_ascii(q, ".js"@);
    let q = replace_all(q, ".js"@, ""@);
    lemma_replace_keeps_ascii(q, ".ts"@);
    let q = replace_all(q, ".ts"@, ""@);
    lemma_replace_keeps_ascii(q, ".cpp"@);
    let q = replace_all(q, ".cpp"@, ""@);
    lemma_replace_keeps_ascii(q, ".hlsl"@);
    let q = replace_all(q, ".hlsl"@, ""@);
    lemma_replace_keeps_ascii(q, ".h"@);
    let q = replace_all(q, ".h"@, ""@);
    lemma_replace_keeps_ascii(q, ".json"@);
    let q = replace_all(q, ".json"@, ""@);
    lemma_replace_keeps_ascii(q, ".toml"@);
    let q = replace_all(q, ".toml"@, ""@);
    lemma_replace_keeps_ascii(q, ".yaml"@);
    let q = replace_all(q, ".yaml"@, ""@);
    lemma_replace_keeps_ascii(q, ".md"@);
    let q = replace_all(q, ".md"@, ""@);
    lemma_replace_keeps_ascii(q, ".shader"@);
    let q = replace_all(q, ".shader"@, ""@);
    lemma_replace_keeps_ascii(q, ".hlsl"@);
}

/// A line matches a keyword that stands in it, and one of more than one character that stands in it
/// with one character changed, left out or added.
pub proof fn law_near_misses_match(
    a: Seq<char>,
    b: Seq<char>,
    kw: Seq<char>,
    i: int,
    c: char,
)
    ensures
        matches_keyword(a + kw + b, kw),
        kw.len() > 1 && 0 <= i < kw.len() ==> matches_keyword(a + kw.update(i, c) + b, kw),
        kw.len() > 1 && 0 <= i < kw.len() ==> matches_keyword(a + kw.remove(i) + b, kw),
        kw.len() > 1 && 0 <= i <= kw.len() ==> matches_keyword(a + kw.insert(i, c) + b, kw),
{
    crate::strings::lemma_occurs_whole(kw);
    crate::strings::lemma_occurs_between(a, kw, b, kw);
    if kw.len() > 1 && 0 <= i < kw.len() {
        let changed = kw.update(i, c);
        assert(changed.take(i) =~= kw.take(i));
        assert(changed.skip(i + 1) =~= kw.skip(i + 1));
        assert(crate::strings::changed_at(changed, kw, i));
        lemma_near_part(a, changed, b, kw);
        let short = kw.remove(i);
        assert(kw.take(i) =~= short.take(i));
        assert(kw.skip(i + 1) =~= short.skip(i));
        assert(crate::strings::inserted_at(kw, short, i));
        lemma_near_part(a, short, b, kw);
    }
    if kw.len() > 1 && 0 <= i <= kw.len() {
        let long = kw.insert(i, c);
        assert(long.take(i) =~= kw.take(i));
        assert(long.skip(i + 1) =~= kw.skip(i));
        assert(crate::strings::inserted_at(long, kw, i));
        lemma_near_part(a, long, b, kw);
    }
}

proof fn lemma_near_part(a: Seq<char>, w: Seq<char>, b: Seq<char>, kw: Seq<char>)
    requires
        kw.len() > 1,
        within_one_edit(w, kw),
    ensures
        matches_keyword(a + w + b, kw),
{
    let line = a + w + b;
    let from = a.len() as int;
    let to = (a.len() + w.len()) as int;
    assert(line.subrange(from, to) =~= w);
    assert(0 <= from <= to <= line.len() && within_one_edit(line.subrange(from, to), kw));
}

/// A line that a keyword matches has a part that is the keyword, but for one character at most: all
/// other characters are the same, in the same order. A keyword of one character stands in the line.
pub proof fn law_matches_are_near(line: Seq<char>, kw: Seq<char>) -> (part: (int, int))
    requires
        matches_keyword(line, kw),
    ensures
        0 <= part.0 <= part.1 <= line.len(),
        kw.len() <= 1 ==> line.subrange(part.0, part.1) == kw,
        ({
            let near = line.subrange(part.0, part.1);
            ||| near == kw
            ||| exists|i: int|
                0 <= i < kw.len() && near.len() == kw.len() && #[trigger] kw.update(i, near[i])
                    == near
            ||| exists|i: int| 0 <= i < kw.len() && #[trigger] kw.remove(i) == near
            ||| exists|i: int| 0 <= i <= kw.len() && i < near.len() && #[trigger] near.remove(i) == kw
        }),
{
    if occurs(line, kw) {
        let i = choose|i: int| crate::strings::occurs_at(line, kw, i);
        (i, i + kw.len())
    } else {
        let (x, y) = choose|i: int, j: int|
            0 <= i <= j <= line.len() && within_one_edit(#[trigger] line.subrange(i, j), kw);
        let near = line.subrange(x, y);
        if near == kw {
        } else if exists|k: int| crate::strings::changed_at(near, kw, k) {
            let k = choose|k: int| crate::strings::changed_at(near, kw, k);
            assert forall|j: int| 0 <= j < near.len() implies #[trigger] near[j] == kw.update(
                k,
                near[k],
            )[j] by {
                if j < k {
                    assert(near.take(k)[j] == kw.take(k)[j]);
                } else if j > k {
                    assert(near.skip(k + 1)[j - k - 1] == kw.skip(k + 1)[j - k - 1]);
                }
            }
            assert(kw.update(k, near[k]) =~= near);
        } else if exists|k: int| crate::strings::inserted_at(near, kw, k) {
            let k = choose|k: int| crate::strings::inserted_at(near, kw, k);
            lemma_inserted(near, kw, k);
        } else {
            let k = choose|k: int| crate::strings::inserted_at(kw, near, k);
            lemma_inserted(kw, near, k);
        }
        (x, y)
    }
}

proof fn lemma_inserted(long: Seq<char>, short: Seq<char>, k: int)
    requires
        crate::strings::inserted_at(long, short, k),
    ensures
        long.remove(k) == short,
{
    assert forall|j: int| 0 <= j < short.len() implies #[trigger] long.remove(k)[j] == short[j] by {
        if j < k {
            assert(long.take(k)[j] == short.take(k)[j]);
        } else {
            assert(long.skip(k + 1)[j - k] == short.skip(k)[j - k]);
        }
    }
    assert(long.remove(k) =~= short);
}

/// A query of nothing but stop words stands for itself: its words, as white space parts them, are what
/// a line is compared with, in lower case.
pub proof fn law_query_without_keywords_stands_for_itself(query: Seq<char>)
    requires
        keyword_list(query).len() == 0,
    ensures
        keywords(query) == query,
        query_words(query) == pieces(query, Separator::Whitespace).filter(
            |p: Seq<char>| p.len() > 0,
        ).map_values(|w: Seq<char>| lowercase(w)),
{
}

/// The index is asked for the keywords, and for everything where they cannot be read as a query or
/// where there is nothing to ask for.
pub proof fn law_index_is_asked_for_the_keywords(input: Seq<char>)
    ensures
        (exists|i: int| 0 <= i < keywords(input).len() && !is_ws(#[trigger] keywords(input)[i]))
            ==> index_queries(input) == (keywords(input), "*"@),
        (forall|i: int| 0 <= i < keywords(input).len() ==> is_ws(#[trigger] keywords(input)[i]))
            ==> index_queries(input).0 == "*"@,
{
}

/// One step of taking the extensions out of a word with an extension.
proof fn lemma_extension_step(
    word: Seq<char>,
    ext: Seq<char>,
    f: Seq<char>,
    now: Seq<char>,
) -> (next: Seq<char>)
    requires
        !word.contains('.'),
        ext.len() > 0,
        ext[0] == '.',
        forall|i: int| 1 <= i < ext.len() ==> #[trigger] ext[i] != '.',
        f.len() > 0,
        f[0] == '.',
        now == word || (now == word + ext && (f == ext || !has_prefix(ext, f))),
    ensures
        next == replace_all(now, f, ""@),
        next == word || (next == now && f != ext),
{
    reveal_strlit("");
    if now == word {
        lemma_without_dot(word, f);
    } else if f == ext {
        let none = Seq::<char>::empty();
        assert(word + ext + none =~= word + ext);
        assert forall|i: int| 0 <= i < word.len() implies !#[trigger] crate::strings::occurs_at(
            word + ext + none,
            ext,
            i,
        ) by {
            if crate::strings::occurs_at(word + ext + none, ext, i) {
                assert((word + ext).subrange(i, i + ext.len())[0] == '.');
                assert(word[i] == '.');
            }
        }
        crate::strings::law_replacing_goes_from_the_left(word, ext, none, ""@);
        assert(word + ""@ + none =~= word);
    } else {
        assert(!occurs(now, f)) by {
            if occurs(now, f) {
                let i = choose|i: int| crate::strings::occurs_at(now, f, i);
                let n = f.len() as int;
                assert(now.subrange(i, i + n)[0] == '.');
                assert(now[i] == '.');
                if i < word.len() {
                    assert(word[i] == '.');
                } else if i > word.len() {
                    assert(ext[i - word.len()] == '.');
                }
                assert(now.subrange(i, i + n) =~= ext.take(n));
            }
        }
        lemma_nothing_to_replace(now, f, ""@);
    }
    replace_all(now, f, ""@)
}

/// A word with the extension of a file behind it is the word: "player.rs" is a question for "player".
pub proof fn law_extension_is_dropped(word: Seq<char>, ext: Seq<char>)
    requires
        forall|k: int| 0 <= k < word.len() ==> is_word_char(#[trigger] word[k]),
        ext == ".cs"@
            || ext == ".rs"@
            || ext == ".py"@
            || ext == ".json"@
            || ext == ".js"@
            || ext == ".ts"@
            || ext == ".cpp"@
            || ext == ".hlsl"@
            || ext == ".h"@
            || ext == ".toml"@
            || ext == ".yaml"@
            || ext == ".md"@
            || ext == ".shader"@,
    ensures
        without_extensions(word + ext) == word,
        keyword_list(word + ext) == keyword_list(word),
{
    reveal_strlit(".cs");
    reveal_strlit(".rs");
    reveal_strlit(".py");
    reveal_strlit(".json");
    reveal_strlit(".js");
    reveal_strlit(".ts");
    reveal_strlit(".cpp");
    reveal_strlit(".hlsl");
    reveal_strlit(".h");
    reveal_strlit(".toml");
    reveal_strlit(".yaml");
    reveal_strlit(".md");
    reveal_strlit(".shader");
    assert(!word.contains('.'));
    let start = word + ext;
    assert(has_prefix(ext, ".cs"@) ==> ext[1] == 'c' && ext[2] == 's') by {
        if has_prefix(ext, ".cs"@) {
            let front = ext.take(3);
            assert(front[1] == 'c');
            assert(front[2] == 's');
        }
    }
    let t0 = lemma_extension_step(word, ext, ".cs"@, start);
    assert(has_prefix(ext, ".rs"@) ==> ext[1] == 'r' && ext[2] == 's') by {
        if has_prefix(ext, ".rs"@) {
            let front = ext.take(3);
            assert(front[1] == 'r');
            assert(front[2] == 's');
        }
    }
    let t1 = lemma_extension_step(word, ext, ".rs"@, t0);
    assert(has_prefix(ext, ".py"@) ==> ext[1] == 'p' && ext[2] == 'y') by {
        if has_prefix(ext, ".py"@) {
            let front = ext.take(3);
            assert(front[1] == 'p');
            assert(front[2] == 'y');
        }
    }
    let t2 = lemma_extension_step(word, ext, ".py"@, t1);
    assert(has_prefix(ext, ".json"@) ==> ext[1] == 'j' && ext[2] == 's' && ext[3] == 'o' && ext[4] == 'n') by {
        if has_prefix(ext, ".json"@) {
            let front = ext.take(5);
            assert(front[1] == 'j');
            assert(front[2] == 's');
            assert(front[3] == 'o');
            assert(front[4] == 'n');
        }
    }
    let t3 = lemma_extension_step(word, ext, ".json"@, t2);
    assert(has_prefix(ext, ".js"@) ==> ext[1] == 'j' && ext[2] == 's') by {
        if has_prefix(ext, ".js"@) {
            let front = ext.take(3);
            assert(front[1] == 'j');
            assert(front[2] == 's');
        }
    }
    let t4 = lemma_extension_step(word, ext, ".js"@, t3);
    assert(has_prefix(ext, ".ts"@) ==> ext[1] == 't' && ext[2] == 's') by {
        if has_prefix(ext, ".ts"@) {
            let front = ext.take(3);
            assert(front[1] == 't');
            assert(front[2] == 's');
        }
    }
    let t5 = lemma_extension_step(word, ext, ".ts"@, t4);
    assert(has_prefix(ext, ".cpp"@) ==> ext[1] == 'c' && ext[2] == 'p' && ext[3] == 'p') by {
        if has_prefix(ext, ".cpp"@) {
            let front = ext.take(4);
            assert(front[1] == 'c');
            assert(front[2] == 'p');
            assert(front[3] == 'p');
        }
    }
    let t6 = lemma_extension_step(word, ext, ".cpp"@, t5);
    assert(has_prefix(ext, ".hlsl"@) ==> ext[1] == 'h' && ext[2] == 'l' && ext[3] == 's' && ext[4] == 'l') by {
        if has_prefix(ext, ".hlsl"@) {
            let front = ext.take(5);
            assert(front[1] == 'h');
            assert(front[2] == 'l');
            assert(front[3] == 's');
            assert(front[4] == 'l');
        }
    }
    let t7 = lemma_extension_step(word, ext, ".hlsl"@, t6);
    assert(has_prefix(ext, ".h"@) ==> ext[1] == 'h') by {
        if has_prefix(ext, ".h"@) {
            let front = ext.take(2);
            assert(front[1] == 'h');
        }
    }
    let t8 = lemma_extension_step(word, ext, ".h"@, t7);
    assert(has_prefix(ext, ".json"@) ==> ext[1] == 'j' && ext[2] == 's' && ext[3] == 'o' && ext[4] == 'n') by {
        if has_prefix(ext, ".json"@) {
            let front = ext.take(5);
            assert(front[1] == 'j');
            assert(front[2] == 's');
            assert(front[3] == 'o');
            assert(front[4] == 'n');
        }
    }
    let t9 = lemma_extension_step(word, ext, ".json"@, t8);
    assert(has_prefix(ext, ".toml"@) ==> ext[1] == 't' && ext[2] == 'o' && ext[3] == 'm' && ext[4] == 'l') by {
        if has_prefix(ext, ".toml"@) {
            let front = ext.take(5);
            assert(front[1] == 't');
            assert(front[2] == 'o');
            assert(front[3] == 'm');
            assert(front[4] == 'l');
        }
    }
    let t10 = lemma_extension_step(word, ext, ".toml"@, t9);
    assert(has_prefix(ext, ".yaml"@) ==> ext[1] == 'y' && ext[2] == 'a' && ext[3] == 'm' && ext[4] == 'l') by {
        if has_prefix(ext, ".yaml"@) {
            let front = ext.take(5);
            assert(front[1] == 'y');
            assert(front[2] == 'a');
            assert(front[3] == 'm');
            assert(front[4] == 'l');
        }
    }
    let t11 = lemma_extension_step(word, ext, ".yaml"@, t10);
    assert(has_prefix(ext, ".md"@) ==> ext[1] == 'm' && ext[2] == 'd') by {
        if has_prefix(ext, ".md"@) {
            let front = ext.take(3);
            assert(front[1] == 'm');
            assert(front[2] == 'd');
        }
    }
    let t12 = lemma_extension_step(word, ext, ".md"@, t11);
    assert(has_prefix(ext, ".shader"@) ==> ext[1] == 's' && ext[2] == 'h' && ext[3] == 'a' && ext[4] == 'd' && ext[5] == 'e' && ext[6] == 'r') by {
        if has_prefix(ext, ".shader"@) {
            let front = ext.take(7);
            assert(front[1] == 's');
            assert(front[2] == 'h');
            assert(front[3] == 'a');
            assert(front[4] == 'd');
            assert(front[5] == 'e');
            assert(front[6] == 'r');
        }
    }
    let t13 = lemma_extension_step(word, ext, ".shader"@, t12);
    assert(has_prefix(ext, ".hlsl"@) ==> ext[1] == 'h' && ext[2] == 'l' && ext[3] == 's' && ext[4] == 'l') by {
        if has_prefix(ext, ".hlsl"@) {
            let front = ext.take(5);
            assert(front[1] == 'h');
            assert(front[2] == 'l');
            assert(front[3] == 's');
            assert(front[4] == 'l');
        }
    }
    let t14 = lemma_extension_step(word, ext, ".hlsl"@, t13);
    lemma_no_extensions(word);
}

} // verus!
