use vecvec::lines::{is_blank, split_lines};

#[test]
fn lines_end_with_newlines() {
    let texts = [
        "",
        "\n",
        "a",
        "a\n",
        "a\r\n\r\nb\r",
        "\r\n",
        "\r",
        "a\r\r\nb\n\nc",
        "caf\u{e9}\r\n\u{20ac}\n\u{1f600}\r\r\n\u{10a0a}",
        "\u{8a}\u{a0a}\nx",
    ];
    for text in texts {
        let expected: Vec<&str> = text.lines().collect();
        assert_eq!(split_lines(text), expected);
    }
    assert_eq!(split_lines("a\r\n\nb\r"), vec!["a", "", "b\r"]);
}

#[test]
fn white_space_is_blank() {
    for code in 0..=0x10ffffu32 {
        if let Some(c) = char::from_u32(code) {
            let line = c.to_string();
            assert_eq!(is_blank(&line), line.trim().is_empty());
        }
    }
    assert!(is_blank(""));
    assert!(is_blank(" \t\u{3000}"));
    assert!(!is_blank(" x "));
}
