use html2sl::text::{
    char_is_space, chars_of, remove_empty_lines, remove_first_and_last_line, string_of,
    trim_chars,
};

fn trimmed(s: &str) -> String {
    string_of(&trim_chars(&chars_of(s)))
}

#[test]
fn blank_lines_are_removed() {
    assert_eq!(remove_empty_lines("a\n\n  \nb\n"), "a\nb");
    assert_eq!(remove_empty_lines("\n\n"), "");
    assert_eq!(remove_empty_lines(""), "");
    assert_eq!(remove_empty_lines("  x  "), "  x  ");
    assert_eq!(remove_empty_lines("\t\n x\n\u{3000}\ny"), " x\ny");
}

#[test]
fn blank_line_removal_twice_is_once() {
    for s in ["a\n\n  \nb\n", "", "\n", "x", " a \n\n\n b \n \n", "a\r\n\r\nb"] {
        let once = remove_empty_lines(s);
        assert_eq!(remove_empty_lines(&once), once);
    }
}

#[test]
fn first_and_last_line_are_dropped() {
    assert_eq!(remove_first_and_last_line("a\nb\nc"), "b");
    assert_eq!(remove_first_and_last_line("a\nb\nc\nd"), "b\nc");
    assert_eq!(remove_first_and_last_line("a\nb"), "");
}

#[test]
fn fewer_than_two_lines_leave_nothing() {
    assert_eq!(remove_first_and_last_line("a"), "");
    assert_eq!(remove_first_and_last_line(""), "");
}

#[test]
fn trimming_follows_unicode_white_space() {
    assert_eq!(trimmed("  hello  "), "hello");
    assert_eq!(trimmed("   \n  "), "");
    assert_eq!(trimmed("\u{a0}a b\u{2003}\r\n"), "a b");
    assert_eq!(trimmed("\u{200b}a"), "\u{200b}a");
    assert_eq!(trimmed(""), "");
}

#[test]
fn white_space_agrees_with_the_standard_library() {
    let mut n: u32 = 0;
    while n < 0x11_0000 {
        if let Some(c) = char::from_u32(n) {
            assert_eq!(char_is_space(c), c.is_whitespace());
        }
        n += 1;
    }
}

#[test]
fn characters_round_trip() {
    let s = "h\u{e9}llo \u{1f600}\n";
    assert_eq!(chars_of(s), s.chars().collect::<Vec<char>>());
    assert_eq!(string_of(&chars_of(s)), s);
}

#[test]
fn carriage_return_is_no_separator() {
    assert_eq!(remove_empty_lines("a\r\nb"), "a\r\nb");
    assert_eq!(remove_empty_lines("a\n\r\nb"), "a\nb");
    assert_eq!(remove_first_and_last_line("a\nb\r\nc"), "b\r");
}

#[test]
fn a_final_newline_ends_a_line_and_starts_an_empty_one() {
    assert_eq!(remove_first_and_last_line("a\nb\n"), "b");
    assert_eq!(remove_first_and_last_line("\n"), "");
    assert_eq!(remove_empty_lines("a\nb\n"), "a\nb");
}
