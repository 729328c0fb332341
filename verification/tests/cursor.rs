use cljrs::char_reader::{
    is_symbol_begin_char, is_symbol_continue_char, is_whitespace, try_read_symbol_part, CharReader,
};
use cljrs::offsets::char_width;
use cljrs::reader;

#[test]
fn whitespace_is_unicode_whitespace_or_comma() {
    let mut code: u32 = 0;
    while code <= 0x10FFFF {
        if let Some(ch) = char::from_u32(code) {
            assert_eq!(
                is_whitespace(ch),
                ch.is_whitespace() || ch == ',',
                "U+{:04X}",
                code
            );
        }
        code += 1;
    }
}

#[test]
fn comma_newline_and_no_break_space_are_whitespace() {
    assert!(is_whitespace(','));
    assert!(is_whitespace(' '));
    assert!(is_whitespace('\n'));
    assert!(is_whitespace('\t'));
    assert!(is_whitespace('\u{A0}'));
    assert!(is_whitespace('\u{3000}'));
    assert!(!is_whitespace('a'));
    assert!(!is_whitespace(';'));
    assert!(!is_whitespace('\u{200B}'));
}

#[test]
fn symbol_characters_are_neither_whitespace_nor_delimiters() {
    for ch in ['(', ')', '[', ']', '{', '}', ' ', ',', '\n'] {
        assert!(!is_symbol_begin_char(ch));
        assert!(!is_symbol_continue_char(ch));
    }
    for ch in ['a', '/', '#', ':', ';', '"', '\'', '@', '.', '-', '越'] {
        assert!(is_symbol_begin_char(ch));
        assert!(is_symbol_continue_char(ch));
    }
}

#[test]
fn width_of_every_character_is_its_utf8_length() {
    let mut code: u32 = 0;
    while code <= 0x10FFFF {
        if let Some(ch) = char::from_u32(code) {
            assert_eq!(char_width(ch), ch.len_utf8(), "U+{:04X}", code);
        }
        code += 1;
    }
}

#[test]
fn no_reader_for_the_empty_string() {
    assert!(CharReader::try_from_str("").is_none());
    assert!(reader("").is_none());
    assert!(reader(" ").is_some());
}

#[test]
fn entries_are_those_of_char_indices() {
    let src = "a越b\u{1F600}c é,";
    let expected: Vec<(usize, char)> = src.char_indices().collect();
    let mut rdr = CharReader::try_from_str(src).unwrap();
    for (idx, entry) in expected.iter().enumerate() {
        assert_eq!(rdr.at(idx), Some(*entry));
        assert_eq!(rdr.byte_idx_at(idx), Some(entry.0));
    }
    assert_eq!(rdr.at(expected.len()), None);
    assert_eq!(rdr.byte_idx_at(expected.len()), None);
    assert_eq!(rdr.at(usize::MAX), None);
}

#[test]
fn cursor_walks_the_source() {
    let mut rdr = CharReader::try_from_str("a越b").unwrap();
    assert_eq!(rdr.current(), Some((0, 'a')));
    assert_eq!(rdr.current_byte_idx(), Some(0));
    assert_eq!(rdr.current_char(), Some('a'));
    assert!(rdr.current_char_eq('a'));
    assert!(!rdr.current_char_eq('b'));
    assert_eq!(rdr.peek(), Some((1, '越')));
    assert_eq!(rdr.peek_byte_idx(), Some(1));
    assert_eq!(rdr.peek_char(), Some('越'));
    assert!(rdr.peek_char_eq('越'));
    assert!(!rdr.is_at_end());
    assert!(!rdr.is_beyond_end());

    rdr.advance();
    assert_eq!(rdr.current(), Some((1, '越')));
    assert_eq!(rdr.peek(), Some((4, 'b')));

    rdr.advance();
    assert_eq!(rdr.current(), Some((4, 'b')));
    assert!(rdr.is_at_end());
    assert!(!rdr.is_beyond_end());
    assert_eq!(rdr.peek(), None);
    assert_eq!(rdr.peek_byte_idx(), None);
    assert_eq!(rdr.peek_char(), None);
    assert!(!rdr.peek_char_eq('b'));

    rdr.advance();
    assert_eq!(rdr.current(), None);
    assert_eq!(rdr.current_byte_idx(), None);
    assert_eq!(rdr.current_char(), None);
    assert!(!rdr.current_char_eq('b'));
    assert!(!rdr.is_at_end());
    assert!(rdr.is_beyond_end());
    assert_eq!(rdr.peek(), None);

    rdr.advance();
    assert!(rdr.is_beyond_end());
    assert_eq!(rdr.current(), None);
}

#[test]
fn skip_whitespaces_stops_on_the_first_other_character() {
    let mut rdr = CharReader::try_from_str(" ,\u{A0}\n\tx y").unwrap();
    rdr.skip_whitespaces();
    assert_eq!(rdr.current(), Some((6, 'x')));
    rdr.skip_whitespaces();
    assert_eq!(rdr.current(), Some((6, 'x')));
}

#[test]
fn skip_whitespaces_runs_to_the_end() {
    let mut rdr = CharReader::try_from_str("  , ").unwrap();
    rdr.skip_whitespaces();
    assert!(rdr.is_beyond_end());
}

#[test]
fn symbol_part_stops_at_slash_whitespace_and_delimiters() {
    let mut rdr = CharReader::try_from_str("foo/bar baz)").unwrap();
    let part = try_read_symbol_part(&mut rdr).unwrap().unwrap();
    assert_eq!(part.data, "foo");
    assert_eq!(part.span, (0, 2));
    assert_eq!(rdr.current_char(), Some('/'));
    rdr.advance();
    let part = try_read_symbol_part(&mut rdr).unwrap().unwrap();
    assert_eq!(part.data, "bar");
    assert_eq!(part.span, (4, 6));
    assert_eq!(rdr.current_char(), Some(' '));
    rdr.advance();
    let part = try_read_symbol_part(&mut rdr).unwrap().unwrap();
    assert_eq!(part.data, "baz");
    assert_eq!(part.span, (8, 10));
    assert_eq!(rdr.current_char(), Some(')'));
}

#[test]
fn symbol_part_may_begin_with_a_slash() {
    let mut rdr = CharReader::try_from_str("/ab").unwrap();
    let part = try_read_symbol_part(&mut rdr).unwrap().unwrap();
    assert_eq!(part.data, "/ab");
    assert_eq!(part.span, (0, 2));
    assert!(rdr.is_beyond_end());
}

#[test]
fn symbol_part_spans_are_byte_offsets() {
    let mut rdr = CharReader::try_from_str("é越 x").unwrap();
    let part = try_read_symbol_part(&mut rdr).unwrap().unwrap();
    assert_eq!(part.data, "é越");
    assert_eq!(part.span, (0, 2));
    assert_eq!(rdr.current(), Some((5, ' ')));
}

#[test]
fn no_symbol_part_on_whitespace_delimiter_or_end() {
    let mut rdr = CharReader::try_from_str(" a").unwrap();
    assert!(try_read_symbol_part(&mut rdr).unwrap().is_none());
    assert_eq!(rdr.current(), Some((0, ' ')));

    let mut rdr = CharReader::try_from_str("(a").unwrap();
    assert!(try_read_symbol_part(&mut rdr).unwrap().is_none());
    assert_eq!(rdr.current(), Some((0, '(')));

    let mut rdr = CharReader::try_from_str("a").unwrap();
    rdr.advance();
    assert!(try_read_symbol_part(&mut rdr).unwrap().is_none());
    assert!(rdr.is_beyond_end());
}
