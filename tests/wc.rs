use uniqr::wc::{count, FileInfo};

#[test]
fn test_count() {
    let text = "I don't want the world. I just want your half.\r\n";
    let info = count(text);
    let expected = FileInfo {
        num_lines: 1,
        num_words: 10,
        num_chars: 48,
        num_bytes: 48,
    };

    assert_eq!(info, expected)
}

#[test]
fn count_empty_text() {
    let expected = FileInfo { num_lines: 0, num_words: 0, num_chars: 0, num_bytes: 0 };
    assert_eq!(count(""), expected);
}

#[test]
fn count_multibyte_and_unterminated() {
    let info = count("h\u{e9}llo  w\u{f6}rld\nlast");
    assert_eq!(info.num_lines, 1);
    assert_eq!(info.num_words, 3);
    assert_eq!(info.num_chars, 17);
    assert_eq!(info.num_bytes, 19);
}

#[test]
fn count_words_split_by_any_white_space() {
    let info = count(" a\tb\u{3000}c\r\n\nd ");
    assert_eq!(info.num_words, 4);
    assert_eq!(info.num_lines, 2);
}
