//! A source text that can be read by byte offsets.
use vstd::prelude::*;
use vstd::slice::slice_subrange;

use crate::strings::{count_char, count_of, lemma_count_bound};
use crate::syntax::{fits, spans_fit, SyntaxNode};
use crate::text::{
    at_byte, byte_count, byte_len, byte_slice, byte_table, char_pos, indexes_bytes,
    lemma_at_byte_unique, lemma_byte_len_monotonic, lemma_byte_len_subrange, lemma_len_le_byte_len,
    on_boundary, to_chars,
};

verus! {

/// The number of the line that byte offset `byte` of `s` lies in, counted from one.
pub open spec fn line_at(s: Seq<char>, byte: int) -> int {
    count_char(s.take(char_pos(s, byte)), '\n') as int + 1
}

/// A source text, with the character position of every byte offset.
pub struct SourceText {
    chars: Vec<char>,
    table: Vec<Option<usize>>,
}

impl View for SourceText {
    type V = Seq<char>;

    closed spec fn view(&self) -> Seq<char> {
        self.chars@
    }
}

/// A character position lies in the text, and later offsets have later positions.
pub proof fn lemma_char_pos_order(s: Seq<char>, from: int, to: int)
    requires
        on_boundary(s, from),
        on_boundary(s, to),
        from <= to,
    ensures
        0 <= char_pos(s, from) <= char_pos(s, to) <= s.len(),
        from == to ==> char_pos(s, from) == char_pos(s, to),
{
    let a = char_pos(s, from);
    let b = char_pos(s, to);
    assert(at_byte(s, from, a) && at_byte(s, to, b));
    if b < a {
        lemma_byte_len_monotonic(s, b, a);
    }
}

/// Both ends of a text lie on boundaries.
pub proof fn lemma_end_boundaries(s: Seq<char>)
    ensures
        on_boundary(s, 0),
        on_boundary(s, byte_len(s) as int),
        char_pos(s, byte_len(s) as int) == s.len(),
{
    assert(s.take(0) =~= Seq::<char>::empty());
    lemma_at_byte_unique(s, 0, 0);
    assert(s.take(s.len() as int) =~= s);
    lemma_at_byte_unique(s, byte_len(s) as int, s.len() as int);
}

impl SourceText {
    /// The table belongs to the text, and the text fits in memory.
    pub closed spec fn wf(&self) -> bool {
        &&& indexes_bytes(self.table@, self.chars@)
        &&& byte_len(self.chars@) <= isize::MAX
    }

    /// A text to read by byte offsets.
    pub fn new(text: &str) -> (res: SourceText)
        ensures
            res.wf(),
            res@ == text@,
    {
        let _size = byte_count(text);
        let chars = to_chars(text);
        let table = byte_table(chars.as_slice());
        SourceText { chars, table }
    }

    /// The text holds no more than `isize::MAX` characters.
    pub proof fn lemma_wf_size(&self)
        requires
            self.wf(),
        ensures
            byte_len(self@) <= isize::MAX,
            self@.len() <= isize::MAX,
    {
        lemma_len_le_byte_len(self@);
    }

    /// The size of the text in bytes.
    pub fn size(&self) -> (res: usize)
        requires
            self.wf(),
        ensures
            res == byte_len(self@),
            on_boundary(self@, res as int),
            res <= isize::MAX,
    {
        proof {
            lemma_end_boundaries(self@);
        }
        self.table.len() - 1
    }

    /// The character position of a byte offset.
    fn position(&self, byte: usize) -> (res: usize)
        requires
            self.wf(),
            on_boundary(self@, byte as int),
        ensures
            res == char_pos(self@, byte as int),
            res <= self@.len(),
    {
        let ghost k = char_pos(self@, byte as int);
        proof {
            assert(at_byte(self@, byte as int, k));
            lemma_byte_len_subrange(self@, k, k);
        }
        match self.table[byte] {
            Some(pos) => {
                proof {
                    lemma_at_byte_unique(self@, byte as int, pos as int);
                }
                pos
            },
            None => 0,
        }
    }

    /// The part of the text between two byte offsets.
    pub fn slice(&self, from: usize, to: usize) -> (res: &[char])
        requires
            self.wf(),
            on_boundary(self@, from as int),
            on_boundary(self@, to as int),
            from <= to,
        ensures
            res@ == byte_slice(self@, from as int, to as int),
            res@.len() <= isize::MAX,
            byte_len(res@) <= isize::MAX,
    {
        proof {
            self.lemma_wf_size();
            lemma_char_pos_order(self@, from as int, to as int);
            lemma_byte_len_subrange(
                self@,
                char_pos(self@, from as int),
                char_pos(self@, to as int),
            );
        }
        let a = self.position(from);
        let b = self.position(to);
        slice_subrange(self.chars.as_slice(), a, b)
    }

    /// The number of the line that a byte offset lies in, counted from one.
    pub fn line_of(&self, byte: usize) -> (res: usize)
        requires
            self.wf(),
            on_boundary(self@, byte as int),
        ensures
            res == line_at(self@, byte as int),
            res <= isize::MAX + 1,
    {
        proof {
            self.lemma_wf_size();
        }
        let k = self.position(byte);
        let before = slice_subrange(self.chars.as_slice(), 0, k);
        assert(before@ =~= self@.take(k as int));
        proof {
            lemma_count_bound(before@, '\n');
        }
        count_of(before, '\n') + 1
    }

    /// Whether the spans of the nodes of a tree are spans of this text.
    pub fn holds(&self, nodes: &Vec<SyntaxNode>) -> (res: bool)
        requires
            self.wf(),
        ensures
            res == fits(self@, nodes@),
    {
        spans_fit(nodes, &self.table, Ghost(self@))
    }
}

} // verus!
