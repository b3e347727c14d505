use cix::line_chunks::{chunk_generic_fallback, find_soft_break, soft_split_by_braces};
use cix::numbers::{append_right_aligned, number_text, parse_unsigned};
use cix::strings::{
    blank_text, replace_text, replaced_first, split, split_lines, stripped_prefixes,
    stripped_suffixes, text_contains, text_starts_with, trim_text, Separator,
};
use cix::text::{
    ascii_lowercase, byte_table, bytes_of, find_char_pos, from_chars, is_whitespace, same_text,
    to_chars,
};

const SAMPLES: [&str; 12] = [
    "",
    " ",
    "a",
    "\n",
    "a\n",
    "a\r\nb\n\r",
    "  x y\t",
    "aaa",
    "日本\u{a0}語",
    "a\u{2003}b\u{85}",
    "\r\n\r\n",
    "one two  three\n",
];

#[test]
fn white_space_is_what_std_says() {
    for n in 0..=0x10ffff_u32 {
        if let Some(c) = char::from_u32(n) {
            assert_eq!(is_whitespace(c), c.is_whitespace(), "{:x}", n);
            assert_eq!(ascii_lowercase(c), c.to_ascii_lowercase(), "{:x}", n);
        }
    }
}

#[test]
fn texts_are_trimmed_and_split_as_std_does() {
    for s in SAMPLES {
        assert_eq!(trim_text(s), s.trim());
        assert_eq!(blank_text(s), s.trim().is_empty());
        let chars = to_chars(s);
        let lines: Vec<String> = split_lines(&chars).into_iter().map(from_chars).collect();
        assert_eq!(lines, s.lines().collect::<Vec<_>>());
        let parts: Vec<String> =
            split(&chars, Separator::Newline).into_iter().map(from_chars).collect();
        assert_eq!(parts, s.split('\n').collect::<Vec<_>>());
        assert_eq!(bytes_of(&chars), s.len());
        for t in SAMPLES {
            assert_eq!(text_contains(s, t), s.contains(t));
            assert_eq!(text_starts_with(s, t), s.starts_with(t));
            assert_eq!(same_text(s, t), s == t);
            let first = replaced_first(&chars, &to_chars(t), &to_chars("<>"));
            assert_eq!(from_chars(&first), s.replacen(t, "<>", 1));
            if !t.is_empty() {
                assert_eq!(replace_text(s, t, "<>"), s.replace(t, "<>"));
                assert_eq!(from_chars(stripped_prefixes(&chars, t)), s.trim_start_matches(t));
                assert_eq!(from_chars(stripped_suffixes(&chars, t)), s.trim_end_matches(t));
            }
        }
    }
}

#[test]
fn byte_offsets_lead_to_characters() {
    for s in SAMPLES {
        let chars = to_chars(s);
        let table = byte_table(&chars);
        assert_eq!(table.len(), s.len() + 1);
        for byte in 0..=s.len() + 1 {
            let expected = if byte <= s.len() && s.is_char_boundary(byte) {
                Some(s[..byte].chars().count())
            } else {
                None
            };
            assert_eq!(find_char_pos(&chars, byte), expected);
            if byte <= s.len() {
                assert_eq!(table[byte], expected);
            }
        }
    }
}

#[test]
fn numbers_are_written_and_read() {
    for n in [0, 7, 10, 99, 100, 12345, usize::MAX] {
        assert_eq!(number_text(n), n.to_string());
        for width in [0, 1, 4, 30] {
            let mut out = "<".to_string();
            append_right_aligned(&mut out, n, width);
            assert_eq!(out, format!("<{:>1$}", n, width));
        }
    }
    for s in ["", "+", "0", "+7", "007", "18446744073709551615", "18446744073709551616", "1x", "-1", " 1", "++1", "99999999999999999999999x"] {
        assert_eq!(parse_unsigned(&to_chars(s)), s.parse::<u64>().ok(), "{}", s);
    }
}

#[test]
fn chunks_of_lines_cover_the_text() {
    let text: String = (0..400).map(|i| format!("line number {} of many {{ }}\n", i)).collect();
    for chunks in [chunk_generic_fallback(&text), soft_split_by_braces(&text, 1)] {
        for pair in chunks.windows(2) {
            assert_eq!(pair[1].start_line, pair[0].end_line - 1);
        }
        assert!(chunks.len() > 1);
        assert_eq!(chunks[0].start_line, 1);
        assert_eq!(chunks[chunks.len() - 1].end_line, 400);
        let all: Vec<&str> = text.lines().collect();
        for (i, c) in chunks.iter().enumerate() {
            assert_eq!(c.content, all[c.start_line - 1..c.end_line].join("\n"));
            if i > 0 {
                assert!(c.start_line <= chunks[i - 1].end_line + 1);
            }
        }
    }
}

#[test]
fn a_break_before_the_start_is_where_it_was_asked_for() {
    let lines: Vec<Vec<char>> = ["a", "", "b", "}"].iter().map(|l| to_chars(l)).collect();
    let slices: Vec<&[char]> = lines.iter().map(|l| l.as_slice()).collect();
    assert_eq!(find_soft_break(&slices, 0, 2, 5), 1);
    assert_eq!(find_soft_break(&slices, 0, 3, 1), 3);
    assert_eq!(find_soft_break(&slices, 2, 2, 5), 2);
    assert_eq!(find_soft_break(&slices, 3, 2, 0), 2);
    assert_eq!(find_soft_break(&slices, 99, 50, 0), 50);
}
