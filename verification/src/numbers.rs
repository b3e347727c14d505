//! Numbers in decimal notation.
use vstd::prelude::*;

use crate::text::append_text;

verus! {

/// The character of a decimal digit.
pub open spec fn digit_char(d: nat) -> char {
    ((48 + d) as u8) as char
}

/// A number in decimal notation.
pub open spec fn decimal(n: nat) -> Seq<char>
    decreases n,
{
    if n < 10 {
        seq![digit_char(n)]
    } else {
        decimal(n / 10).push(digit_char(n % 10))
    }
}

/// Appends a number in decimal notation.
pub fn append_number(out: &mut String, n: u64)
    ensures
        final(out)@ == old(out)@ + decimal(n as nat),
    decreases n,
{
    let ghost before = out@;
    if n >= 10 {
        append_number(out, n / 10);
    }
    let ghost head = out@;
    out.push(((48 + n % 10) as u8) as char);
    proof {
        let d = digit_char((n % 10) as nat);
        if n >= 10 {
            assert(before + decimal((n / 10) as nat).push(d) =~= head.push(d));
        } else {
            assert(before + seq![d] =~= head.push(d));
        }
    }
}

/// A number in decimal notation.
pub fn number_text(n: usize) -> (res: String)
    ensures
        res@ == decimal(n as nat),
{
    let mut out = String::new();
    append_number(&mut out, n as u64);
    assert(Seq::<char>::empty() + decimal(n as nat) =~= decimal(n as nat));
    out
}

/// `count` spaces.
pub open spec fn spaces(count: nat) -> Seq<char> {
    Seq::new(count, |i: int| ' ')
}

/// A text moved to the right end of a column of `width` characters.
pub open spec fn right_align(s: Seq<char>, width: nat) -> Seq<char> {
    if s.len() >= width {
        s
    } else {
        spaces((width - s.len()) as nat) + s
    }
}

/// Appends a number in decimal notation, at the right end of a column of `width` characters.
pub fn append_right_aligned(out: &mut String, n: usize, width: usize)
    ensures
        final(out)@ == old(out)@ + right_align(decimal(n as nat), width as nat),
{
    let text = number_text(n);
    let ghost before = out@;
    let chars = crate::text::to_chars(text.as_str());
    let len = chars.len();
    let mut i: usize = len;
    assert(before + spaces(0) =~= before);
    while i < width
        invariant
            len <= i,
            len < width ==> i <= width,
            len >= width ==> i == len,
            out@ == before + spaces((i - len) as nat),
        decreases width - i,
    {
        out.push(' ');
        assert(spaces((i + 1 - len) as nat) =~= spaces((i - len) as nat).push(' '));
        i = i + 1;
    }
    append_text(out, text.as_str());
    if len < width {
        assert((before + spaces((width - len) as nat)) + text@ =~= before + (spaces(
            (width - len) as nat,
        ) + text@));
    }
}

/// Whether a character is a decimal digit.
pub open spec fn is_digit(c: char) -> bool {
    '0' <= c && c <= '9'
}

/// The number that a sequence of decimal digits means.
pub open spec fn digits_value(s: Seq<char>) -> nat
    decreases s.len(),
{
    if s.len() == 0 {
        0
    } else {
        digits_value(s.drop_last()) * 10 + (s.last() as u32 - 48) as nat
    }
}

/// The digits of a number that may have a plus sign in front.
pub open spec fn unsigned_digits(s: Seq<char>) -> Seq<char> {
    if s.len() > 0 && s[0] == '+' {
        s.drop_first()
    } else {
        s
    }
}

/// The number that `s` means: one or more digits, which may have a plus sign in front, of a
/// value that fits in 64 bits.
pub open spec fn unsigned_value(s: Seq<char>) -> Option<u64> {
    let digits = unsigned_digits(s);
    if digits.len() > 0 && (forall|i: int| 0 <= i < digits.len() ==> is_digit(#[trigger] digits[i]))
        && digits_value(digits) <= u64::MAX {
        Some(digits_value(digits) as u64)
    } else {
        None
    }
}

proof fn lemma_digits_value_grows(s: Seq<char>, k: int)
    requires
        0 <= k <= s.len(),
        forall|i: int| 0 <= i < s.len() ==> is_digit(#[trigger] s[i]),
    ensures
        digits_value(s.take(k)) <= digits_value(s),
    decreases s.len() - k,
{
    if k == s.len() {
        assert(s.take(k) =~= s);
    } else {
        lemma_digits_value_grows(s, k + 1);
        assert(s.take(k + 1).drop_last() =~= s.take(k));
        assert(s.take(k + 1).last() == s[k]);
    }
}

/// The number that `s` means.
pub fn parse_unsigned(s: &[char]) -> (res: Option<u64>)
    ensures
        res == unsigned_value(s@),
{
    let first: usize = if s.len() > 0 && s[0] == '+' {
        1
    } else {
        0
    };
    let digits = vstd::slice::slice_subrange(s, first, s.len());
    assert(digits@ =~= unsigned_digits(s@));
    if digits.len() == 0 {
        return None;
    }
    let mut value: u64 = 0;
    let mut too_large = false;
    for i in 0..digits.len()
        invariant
            digits@ == unsigned_digits(s@),
            forall|k: int| 0 <= k < i ==> is_digit(#[trigger] digits@[k]),
            !too_large ==> value == digits_value(digits@.take(i as int)),
            too_large ==> digits_value(digits@.take(i as int)) > u64::MAX,
    {
        let c = digits[i];
        if !('0' <= c && c <= '9') {
            return None;
        }
        assert(digits@.take(i + 1).drop_last() =~= digits@.take(i as int));
        assert(digits@.take(i + 1).last() == c);
        let d: u64 = ((c as u32) - 48) as u64;
        if !too_large {
            if value > (u64::MAX - d) / 10 {
                assert(value * 10 + d > u64::MAX) by (nonlinear_arith)
                    requires
                        value > (u64::MAX - d) / 10,
                        d <= 9,
                ;
                too_large = true;
            } else {
                assert(value * 10 + d <= u64::MAX) by (nonlinear_arith)
                    requires
                        value <= (u64::MAX - d) / 10,
                        d <= 9,
                ;
                value = value * 10 + d;
            }
        }
    }
    assert(digits@.take(digits@.len() as int) =~= digits@);
    if too_large {
        None
    } else {
        Some(value)
    }
}

/// A text at the right end of a column keeps all its characters, behind spaces that fill the column; a
/// text that is too long for the column stays as it is.
pub proof fn law_right_end_of_a_column(s: Seq<char>, width: nat)
    ensures
        right_align(s, width).len() == if s.len() < width {
            width
        } else {
            s.len()
        },
        right_align(s, width).skip(right_align(s, width).len() - s.len()) == s,
        forall|i: int|
            0 <= i < right_align(s, width).len() - s.len() ==> #[trigger] right_align(s, width)[i]
                == ' ',
{
    let all = right_align(s, width);
    assert(all.skip(all.len() - s.len()) =~= s);
}

/// A number in decimal notation is made of digits, and says the number.
pub proof fn law_digits_say_the_number(n: nat)
    ensures
        decimal(n).len() > 0,
        forall|i: int| 0 <= i < decimal(n).len() ==> '0' <= #[trigger] decimal(n)[i] <= '9',
        n >= 10 ==> decimal(n).drop_last() == decimal(n / 10),
        decimal(n).last() as u32 == 48 + n % 10,
        n < 10 ==> decimal(n).len() == 1,
    decreases n,
{
    if n < 10 {
        let d = digit_char(n);
        assert(d as u32 == 48 + n);
    } else {
        law_digits_say_the_number(n / 10);
        let d = digit_char(n % 10);
        assert(d as u32 == 48 + n % 10);
        assert(decimal(n).drop_last() =~= decimal(n / 10));
        assert forall|i: int| 0 <= i < decimal(n).len() implies '0' <= #[trigger] decimal(n)[i]
            <= '9' by {
            if i < decimal(n / 10).len() {
                assert(decimal(n)[i] == decimal(n / 10)[i]);
            }
        }
    }
}

} // verus!
