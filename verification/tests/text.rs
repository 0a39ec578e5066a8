use m3u8_parser::text::{same_text, split_lines, strip_prefix};

#[test]
fn split_lines_splits_as_std_does() {
    for text in [
        "",
        "\n",
        "\n\n",
        "a",
        "a\n",
        "a\nb",
        "a\nb\n",
        "a\n\nb\n",
        "a\r\nb\r\n",
        "a\r",
        "a\r\n",
        "a\r\r\n",
        "\r\n",
        "\r",
        "a\rb\n",
        "a\n\rb",
        "é\nü\r\n日本\n",
        "\n\r\n\r",
    ] {
        assert_eq!(split_lines(text), text.lines().collect::<Vec<_>>(), "{:?}", text);
    }
}

#[test]
fn split_lines_of_some_texts() {
    assert_eq!(split_lines(""), Vec::<&str>::new());
    assert_eq!(split_lines("a\r\n\nb"), vec!["a", "", "b"]);
    assert_eq!(split_lines("a\r\r\nb\r"), vec!["a\r", "b\r"]);
}

#[test]
fn strip_prefix_takes_the_start_away() {
    assert_eq!(strip_prefix("#EXTM3U\nrest", "#EXTM3U\n"), Some("rest"));
    assert_eq!(strip_prefix("#EXT", "#EXT"), Some(""));
    assert_eq!(strip_prefix("#EX", "#EXT"), None);
    assert_eq!(strip_prefix("", "#EXT"), None);
    assert_eq!(strip_prefix("abc", ""), Some("abc"));
    assert_eq!(strip_prefix("éa", "é"), Some("a"));
    assert_eq!(strip_prefix("éa", "e"), None);
    assert_eq!(strip_prefix("日本語", "日本"), Some("語"));
}

#[test]
fn same_text_compares_the_characters() {
    assert!(same_text("", ""));
    assert!(same_text("MEDIA", "MEDIA"));
    assert!(!same_text("MEDIA", "MEDIa"));
    assert!(!same_text("MEDIA", "MEDI"));
    assert!(!same_text("MEDI", "MEDIA"));
    assert!(same_text("é", "é"));
    assert!(!same_text("é", "e"));
}
