use rg_fancy::{line_text, NeovimHandler};

#[test]
fn line_text_strips_terminator_and_trailing_space() {
    assert_eq!(line_text(b"hello world \t\r\n"), "hello world");
    assert_eq!(line_text(b"  keep leading"), "  keep leading");
    assert_eq!(line_text(b""), "");
    assert_eq!(line_text(b" \n"), "");
}

#[test]
fn line_text_replaces_invalid_utf8() {
    assert_eq!(line_text(b"a\xffb\n"), "a\u{FFFD}b");
    assert_eq!(line_text("caf\u{e9}\n".as_bytes()), "caf\u{e9}");
}

#[test]
fn grep_request_needs_name_and_three_arguments() {
    let h = NeovimHandler::<2>::new();
    assert_eq!(h.context_length(), 2);
    let s = |x: &str| Some(x.to_string());
    assert_eq!(
        h.grep_request("grep", s("/w"), s("src"), s("fo+")),
        Some(("/w".to_string(), "src".to_string(), "fo+".to_string()))
    );
    assert_eq!(h.grep_request("find", s("/w"), s("src"), s("fo+")), None);
    assert_eq!(h.grep_request("grep", s("/w"), None, s("fo+")), None);
    assert_eq!(h.grep_request("grep", None, s("src"), s("fo+")), None);
    assert_eq!(h.grep_request("grep", s("/w"), s("src"), None), None);
}
