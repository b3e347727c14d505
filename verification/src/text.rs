//! Text as a sequence of characters: the vocabulary that the contracts of this crate use for
//! strings, and the executable operations that meet it.
//!
//! A `&str` or a `String` is viewed as a `Seq<char>`. Executable code turns a string into a
//! vector of characters once and then works on slices of it, so that positions are character
//! positions; sizes in bytes are sizes of the UTF-8 encoding.
use vstd::prelude::*;
use vstd::utf8::encode_utf8;

verus! {

// ---------------------------------------------------------------------------------------------
// Characters
// ---------------------------------------------------------------------------------------------
/// The characters with the Unicode property `White_Space`.
pub open spec fn is_ws(c: char) -> bool {
    let u = c as u32;
    ||| 0x09 <= u <= 0x0d
    ||| u == 0x20
    ||| u == 0x85
    ||| u == 0xa0
    ||| u == 0x1680
    ||| 0x2000 <= u <= 0x200a
    ||| u == 0x2028
    ||| u == 0x2029
    ||| u == 0x202f
    ||| u == 0x205f
    ||| u == 0x3000
}

/// Whether `c` is white space.
pub fn is_whitespace(c: char) -> (res: bool)
    ensures
        res == is_ws(c),
{
    let u: u32 = c as u32;
    (0x09 <= u && u <= 0x0d) || u == 0x20 || u == 0x85 || u == 0xa0 || u == 0x1680 || (0x2000 <= u
        && u <= 0x200a) || u == 0x2028 || u == 0x2029 || u == 0x202f || u == 0x205f || u == 0x3000
}

/// Whether `c` is one of the first 128 characters.
pub open spec fn is_ascii_char(c: char) -> bool {
    c <= '\x7f'
}

/// Whether all characters of `s` are ASCII.
pub open spec fn is_ascii_text(s: Seq<char>) -> bool {
    forall|i: int| 0 <= i < s.len() ==> is_ascii_char(#[trigger] s[i])
}

/// The capitals of ASCII.
pub open spec fn ascii_capital(c: char) -> bool {
    'A' <= c && c <= 'Z'
}

/// The letters and digits of ASCII.
pub open spec fn ascii_letter_or_digit(c: char) -> bool {
    ascii_capital(c) || ('a' <= c && c <= 'z') || ('0' <= c && c <= '9')
}

/// The answer of `char::is_alphanumeric` beyond ASCII: a property of the Unicode tables.
pub uninterp spec fn unicode_alphanumeric(c: char) -> bool;

/// Whether `c` is a letter or a digit, of any script.
pub open spec fn alphanumeric(c: char) -> bool {
    if is_ascii_char(c) {
        ascii_letter_or_digit(c)
    } else {
        unicode_alphanumeric(c)
    }
}

/// `char::is_alphanumeric`. Claimed: of ASCII, the letters and digits are alphanumeric and nothing
/// else is; beyond, the answer is a function of the character alone.
pub assume_specification[ char::is_alphanumeric ](c: char) -> (res: bool)
    ensures
        res == if is_ascii_char(c) {
            ascii_letter_or_digit(c)
        } else {
            unicode_alphanumeric(c)
        },
;

/// The answer of `char::is_uppercase` beyond ASCII: a property of the Unicode tables.
pub uninterp spec fn unicode_uppercase(c: char) -> bool;

/// Whether `c` is a capital, of any script.
pub open spec fn uppercase(c: char) -> bool {
    if is_ascii_char(c) {
        ascii_capital(c)
    } else {
        unicode_uppercase(c)
    }
}

/// `char::is_uppercase`. Claimed: of ASCII, the letters `A` to `Z` are capitals and nothing else
/// is; beyond, the answer is a function of the character alone.
pub assume_specification[ char::is_uppercase ](c: char) -> (res: bool)
    ensures
        res == if is_ascii_char(c) {
            ascii_capital(c)
        } else {
            unicode_uppercase(c)
        },
;

/// The characters that identifiers and search words are made of.
pub open spec fn is_word_char(c: char) -> bool {
    alphanumeric(c) || c == '_'
}

/// `c` with the letters `A` to `Z` mapped to `a` to `z`.
pub open spec fn ascii_lower(c: char) -> char {
    if 'A' <= c && c <= 'Z' {
        ((c as u8 + 32) as u8) as char
    } else {
        c
    }
}

/// `c` with an ASCII capital turned into its small letter.
pub fn ascii_lowercase(c: char) -> (res: char)
    ensures
        res == ascii_lower(c),
{
    if 'A' <= c && c <= 'Z' {
        ((c as u8) + 32) as char
    } else {
        c
    }
}

/// Every character of `s` with the letters `A` to `Z` mapped to `a` to `z`.
pub open spec fn ascii_lower_all(s: Seq<char>) -> Seq<char> {
    s.map_values(|c: char| ascii_lower(c))
}

/// The text that `str::to_lowercase` gives for a text that is not all ASCII: the Unicode lower
/// case of the whole string.
pub uninterp spec fn unicode_lowercase(s: Seq<char>) -> Seq<char>;

/// `s` in lower case. ASCII is mapped character by character.
pub open spec fn lowercase(s: Seq<char>) -> Seq<char> {
    if is_ascii_text(s) {
        ascii_lower_all(s)
    } else {
        unicode_lowercase(s)
    }
}

/// `str::to_lowercase`. Claimed: an ASCII text is mapped character by character; of any other text,
/// the result is a function of the text alone.
pub assume_specification[ str::to_lowercase ](s: &str) -> (res: String)
    ensures
        res@ == if is_ascii_text(s@) {
            ascii_lower_all(s@)
        } else {
            unicode_lowercase(s@)
        },
;

/// An ASCII text in lower case stays as it is when it is lower-cased again.
pub proof fn lemma_lowercase_twice(s: Seq<char>)
    requires
        is_ascii_text(s),
    ensures
        is_ascii_text(lowercase(s)),
        lowercase(lowercase(s)) == lowercase(s),
        lowercase(s).len() == s.len(),
{
    let low = ascii_lower_all(s);
    assert forall|i: int| 0 <= i < low.len() implies is_ascii_char(#[trigger] low[i])
        && !ascii_capital(low[i]) by {
        assert(is_ascii_char(s[i]));
    }
    assert(ascii_lower_all(low) =~= low);
}

// ---------------------------------------------------------------------------------------------
// Strings and characters
// ---------------------------------------------------------------------------------------------
/// `String::push`. Claimed: it appends the character and changes nothing before it.
pub assume_specification[ String::push ](s: &mut String, c: char)
    ensures
        final(s)@ == old(s)@.push(c),
;

/// The size of `s` in bytes, as UTF-8.
pub open spec fn byte_len(s: Seq<char>) -> nat {
    encode_utf8(s).len()
}

/// `std::alloc::Layout::for_value`, read with `Layout::size`. Claimed: the layout of a `str` is as
/// large as its encoding has bytes, and no layout is larger than `isize::MAX` bytes.
#[verifier::external_body]
pub(crate) fn byte_count(s: &str) -> (res: usize)
    ensures
        res == byte_len(s@),
        res <= isize::MAX,
{
    std::alloc::Layout::for_value(s).size()
}

/// The characters of `s`, in order.
pub fn to_chars(s: &str) -> (res: Vec<char>)
    ensures
        res@ == s@,
{
    let mut out: Vec<char> = Vec::new();
    for c in it: s.chars()
        invariant
            out@ == it.seq().take(it.index() as int),
            it.seq() == s@,
    {
        out.push(c);
        assert(it.seq().take(it.index() + 1) =~= it.seq().take(it.index() as int).push(c));
    }
    assert(s@.take(s@.len() as int) =~= s@);
    out
}

/// The string that holds exactly `chars`.
pub fn from_chars(chars: &[char]) -> (res: String)
    ensures
        res@ == chars@,
{
    let mut out = String::new();
    for i in 0..chars.len()
        invariant
            out@ == chars@.take(i as int),
    {
        out.push(chars[i]);
        assert(chars@.take(i + 1) =~= chars@.take(i as int).push(chars@[i as int]));
    }
    assert(chars@.take(chars@.len() as int) =~= chars@);
    out
}

/// Appends the characters of `text`.
pub fn append_text(out: &mut String, text: &str)
    ensures
        final(out)@ == old(out)@ + text@,
{
    for c in it: text.chars()
        invariant
            out@ == old(out)@ + it.seq().take(it.index() as int),
            it.seq() == text@,
    {
        out.push(c);
        assert(it.seq().take(it.index() + 1) =~= it.seq().take(it.index() as int).push(c));
    }
    assert(text@.take(text@.len() as int) =~= text@);
}

/// Two texts with the same encoding are the same.
proof fn lemma_encoding_injective(a: Seq<char>, b: Seq<char>)
    requires
        encode_utf8(a) == encode_utf8(b),
    ensures
        a == b,
{
    vstd::utf8::encode_utf8_decode_utf8(a);
    vstd::utf8::encode_utf8_decode_utf8(b);
}

/// Whether two strings hold the same text.
pub fn same_text(a: &str, b: &str) -> (res: bool)
    ensures
        res == (a@ == b@),
{
    let x = a.as_bytes();
    let y = b.as_bytes();
    if x.len() != y.len() {
        return false;
    }
    for i in 0..x.len()
        invariant
            x@ == encode_utf8(a@),
            y@ == encode_utf8(b@),
            x@.len() == y@.len(),
            forall|k: int| 0 <= k < i ==> x@[k] == y@[k],
    {
        if x[i] != y[i] {
            return false;
        }
    }
    proof {
        assert(x@ =~= y@);
        lemma_encoding_injective(a@, b@);
    }
    true
}

/// Whether a slice of characters spells `text`.
pub fn chars_are(s: &[char], text: &str) -> (res: bool)
    ensures
        res == (s@ == text@),
{
    let t = to_chars(text);
    if s.len() != t.len() {
        return false;
    }
    for i in 0..s.len()
        invariant
            s@.len() == t@.len(),
            t@ == text@,
            forall|k: int| 0 <= k < i ==> s@[k] == t@[k],
    {
        if s[i] != t[i] {
            return false;
        }
    }
    assert(s@ =~= t@);
    true
}

// ---------------------------------------------------------------------------------------------
// Size in bytes
// ---------------------------------------------------------------------------------------------
/// The number of bytes of one character in UTF-8.
pub open spec fn char_width(c: char) -> nat {
    let u = c as u32;
    if u <= 0x7f {
        1
    } else if u <= 0x7ff {
        2
    } else if u <= 0xffff {
        3
    } else {
        4
    }
}

/// The number of bytes that `c` takes in UTF-8.
pub fn utf8_width(c: char) -> (res: usize)
    ensures
        res == char_width(c),
        1 <= res <= 4,
{
    let u: u32 = c as u32;
    if u <= 0x7f {
        1
    } else if u <= 0x7ff {
        2
    } else if u <= 0xffff {
        3
    } else {
        4
    }
}

/// One more character in front adds its own width.
pub proof fn lemma_byte_len_cons(s: Seq<char>)
    requires
        s.len() > 0,
    ensures
        byte_len(s) == char_width(s[0]) + byte_len(s.drop_first()),
{
    vstd::utf8::char_is_scalar(s[0]);
    assert(s.drop_first() =~= s.subrange(1, s.len() as int));
}

/// The size of a concatenation is the sum of the sizes.
pub proof fn lemma_byte_len_add(a: Seq<char>, b: Seq<char>)
    ensures
        byte_len(a + b) == byte_len(a) + byte_len(b),
    decreases a.len(),
{
    if a.len() == 0 {
        assert(a + b =~= b);
        assert(byte_len(a) == 0);
    } else {
        lemma_byte_len_cons(a);
        lemma_byte_len_cons(a + b);
        assert((a + b).drop_first() =~= a.drop_first() + b);
        lemma_byte_len_add(a.drop_first(), b);
    }
}

/// One more character at the end adds its own width.
pub proof fn lemma_byte_len_push(s: Seq<char>, c: char)
    ensures
        byte_len(s.push(c)) == byte_len(s) + char_width(c),
{
    assert(s.push(c) =~= s + seq![c]);
    lemma_byte_len_add(s, seq![c]);
    lemma_byte_len_cons(seq![c]);
    assert(seq![c].drop_first() =~= Seq::<char>::empty());
    assert(byte_len(Seq::<char>::empty()) == 0);
}

/// A text has at most as many characters as bytes.
pub proof fn lemma_len_le_byte_len(s: Seq<char>)
    ensures
        s.len() <= byte_len(s),
    decreases s.len(),
{
    if s.len() > 0 {
        lemma_byte_len_cons(s);
        lemma_len_le_byte_len(s.drop_first());
    }
}

/// A part of a text is no larger than the text.
pub proof fn lemma_byte_len_subrange(s: Seq<char>, a: int, b: int)
    requires
        0 <= a <= b <= s.len(),
    ensures
        byte_len(s.take(a)) + byte_len(s.subrange(a, b)) == byte_len(s.take(b)),
        byte_len(s.take(b)) <= byte_len(s),
        byte_len(s.subrange(a, b)) <= byte_len(s),
{
    assert(s.take(b) =~= s.take(a) + s.subrange(a, b));
    lemma_byte_len_add(s.take(a), s.subrange(a, b));
    assert(s =~= s.take(b) + s.skip(b));
    lemma_byte_len_add(s.take(b), s.skip(b));
}

/// A longer prefix is larger.
pub proof fn lemma_byte_len_monotonic(s: Seq<char>, a: int, b: int)
    requires
        0 <= a < b <= s.len(),
    ensures
        byte_len(s.take(a)) < byte_len(s.take(b)),
{
    lemma_byte_len_subrange(s, a, b);
    lemma_len_le_byte_len(s.subrange(a, b));
}

/// The size in bytes of a slice of characters, cut off at `usize::MAX`.
pub fn bytes_of(s: &[char]) -> (res: usize)
    ensures
        byte_len(s@) <= usize::MAX ==> res == byte_len(s@),
        byte_len(s@) > usize::MAX ==> res == usize::MAX,
{
    let mut total: usize = 0;
    assert(s@.take(0) =~= Seq::<char>::empty());
    for i in 0..s.len()
        invariant
            byte_len(s@.take(i as int)) <= usize::MAX ==> total == byte_len(s@.take(i as int)),
            byte_len(s@.take(i as int)) > usize::MAX ==> total == usize::MAX,
    {
        proof {
            assert(s@.take(i + 1) =~= s@.take(i as int).push(s@[i as int]));
            lemma_byte_len_push(s@.take(i as int), s@[i as int]);
        }
        total = total.saturating_add(utf8_width(s[i]));
    }
    assert(s@.take(s@.len() as int) =~= s@);
    total
}

/// Whether byte offset `byte` of `s` lies between two characters, after the first `k`.
pub open spec fn at_byte(s: Seq<char>, byte: int, k: int) -> bool {
    0 <= k <= s.len() && byte_len(s.take(k)) == byte
}

/// Whether byte offset `byte` of `s` lies between two characters.
pub open spec fn on_boundary(s: Seq<char>, byte: int) -> bool {
    exists|k: int| at_byte(s, byte, k)
}

/// The number of characters of `s` before byte offset `byte`.
pub open spec fn char_pos(s: Seq<char>, byte: int) -> int {
    choose|k: int| at_byte(s, byte, k)
}

/// At most one character position lies at a byte offset.
pub proof fn lemma_at_byte_unique(s: Seq<char>, byte: int, k: int)
    requires
        at_byte(s, byte, k),
    ensures
        on_boundary(s, byte),
        char_pos(s, byte) == k,
{
    let j = char_pos(s, byte);
    assert(at_byte(s, byte, j));
    if j < k {
        lemma_byte_len_monotonic(s, j, k);
    } else if k < j {
        lemma_byte_len_monotonic(s, k, j);
    }
}

/// The part of `s` between two byte offsets.
pub open spec fn byte_slice(s: Seq<char>, from: int, to: int) -> Seq<char> {
    s.subrange(char_pos(s, from), char_pos(s, to))
}

/// The character position of a byte offset, where one lies there.
pub fn find_char_pos(s: &[char], byte: usize) -> (res: Option<usize>)
    ensures
        match res {
            Some(k) => at_byte(s@, byte as int, k as int) && on_boundary(s@, byte as int)
                && char_pos(s@, byte as int) == k,
            None => !on_boundary(s@, byte as int),
        },
{
    let mut seen: usize = 0;
    let mut k: usize = 0;
    assert(s@.take(0) =~= Seq::<char>::empty());
    while k < s.len() && seen < byte
        invariant
            k <= s@.len(),
            seen == byte_len(s@.take(k as int)),
            seen <= byte,
        decreases s@.len() - k,
    {
        let w = utf8_width(s[k]);
        proof {
            assert(s@.take(k + 1) =~= s@.take(k as int).push(s@[k as int]));
            lemma_byte_len_push(s@.take(k as int), s@[k as int]);
        }
        if w > byte - seen {
            proof {
                assert forall|j: int| !at_byte(s@, byte as int, j) by {
                    if at_byte(s@, byte as int, j) {
                        if j <= k {
                            if j < k {
                                lemma_byte_len_monotonic(s@, j, k as int);
                            }
                        } else if j > k + 1 {
                            lemma_byte_len_monotonic(s@, k + 1, j);
                        }
                    }
                }
            }
            return None;
        }
        seen = seen + w;
        k = k + 1;
    }
    if seen == byte {
        proof {
            lemma_at_byte_unique(s@, byte as int, k as int);
        }
        Some(k)
    } else {
        proof {
            assert forall|j: int| !at_byte(s@, byte as int, j) by {
                if at_byte(s@, byte as int, j) {
                    if j < k {
                        lemma_byte_len_monotonic(s@, j, k as int);
                    }
                }
            }
        }
        None
    }
}

/// For every byte offset of `s`, the character position there, where one lies there.
pub open spec fn indexes_bytes(table: Seq<Option<usize>>, s: Seq<char>) -> bool {
    &&& table.len() == byte_len(s) + 1
    &&& forall|b: int|
        0 <= b < table.len() ==> match #[trigger] table[b] {
            Some(k) => at_byte(s, b, k as int),
            None => !on_boundary(s, b),
        }
}

proof fn lemma_between_boundaries(s: Seq<char>, b: int, k: int)
    requires
        0 <= k < s.len(),
        byte_len(s.take(k)) < b < byte_len(s.take(k + 1)),
    ensures
        !on_boundary(s, b),
{
    assert forall|j: int| !at_byte(s, b, j) by {
        if at_byte(s, b, j) {
            if j < k {
                lemma_byte_len_monotonic(s, j, k);
            } else if j > k + 1 {
                lemma_byte_len_monotonic(s, k + 1, j);
            }
        }
    }
}

/// The character position at every byte offset of `s`.
pub fn byte_table(s: &[char]) -> (res: Vec<Option<usize>>)
    requires
        byte_len(s@) <= isize::MAX,
    ensures
        indexes_bytes(res@, s@),
{
    let mut table: Vec<Option<usize>> = Vec::new();
    assert(s@.take(0) =~= Seq::<char>::empty());
    for k in 0..s.len()
        invariant
            table@.len() == byte_len(s@.take(k as int)),
            forall|b: int|
                0 <= b < table@.len() ==> match #[trigger] table@[b] {
                    Some(j) => at_byte(s@, b, j as int),
                    None => !on_boundary(s@, b),
                },
    {
        let w = utf8_width(s[k]);
        let ghost from = table@.len();
        proof {
            assert(s@.take(k + 1) =~= s@.take(k as int).push(s@[k as int]));
            lemma_byte_len_push(s@.take(k as int), s@[k as int]);
        }
        table.push(Some(k));
        for j in 1..w
            invariant
                k < s@.len(),
                from == byte_len(s@.take(k as int)),
                byte_len(s@.take(k + 1)) == from + w,
                table@.len() == from + j,
                forall|b: int|
                    0 <= b < table@.len() ==> match #[trigger] table@[b] {
                        Some(i) => at_byte(s@, b, i as int),
                        None => !on_boundary(s@, b),
                    },
        {
            proof {
                lemma_between_boundaries(s@, from + j, k as int);
            }
            table.push(None);
        }
    }
    table.push(Some(s.len()));
    assert(s@.take(s@.len() as int) =~= s@);
    table
}

} // verus!
