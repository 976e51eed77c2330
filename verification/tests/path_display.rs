use repo2markdown::util::path_display::display_path;

fn debug_without_quotes(s: &str) -> String {
    let d = format!("{:?}", std::path::Path::new(s));
    d[1..d.len() - 1].to_string()
}

#[test]
fn plain_names_are_shown_as_they_are() {
    assert_eq!(display_path(b"src/main.rs"), "src/main.rs");
    assert_eq!(display_path(b""), "");
}

#[test]
fn invalid_bytes_are_shown_in_hex() {
    assert_eq!(display_path(b"a\xffb"), "a\\xFFb");
    assert_eq!(display_path(b"\xe3\x81"), "\\xE3\\x81");
    assert_eq!(display_path(b"\xe3\x81x"), "\\xE3\\x81x");
    assert_eq!(display_path(b"\xf0\x9f\x8e"), "\\xF0\\x9F\\x8E");
    assert_eq!(display_path(b"\xc0\x80"), "\\xC0\\x80");
    assert_eq!(display_path(b"\xed\xa0\x80"), "\\xED\\xA0\\x80");
    assert_eq!(display_path(b"\x80"), "\\x80");
}

#[test]
fn escapes_match_debug_formatting_of_paths() {
    for s in [
        "tab\there",
        "quote\"d",
        "it's",
        "back\\slash",
        "nul\0",
        "e\u{301}",
        "\u{301}start",
        "bell\u{7}",
        "wide 世界",
        "emoji 🎉",
        "zero\u{200b}width",
        "line\r\nbreak",
        "del\u{7f}",
        "soft\u{ad}hyphen",
        "tag\u{e0001}",
        "\u{ffff}\u{10ffff}",
    ] {
        assert_eq!(display_path(s.as_bytes()), debug_without_quotes(s), "path = {:?}", s);
    }
}
