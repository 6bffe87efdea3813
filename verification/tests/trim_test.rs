use tabnas_hoover::js_trim;

#[test]
fn js_trim_follows_ecma_262_not_unicode_white_space() {
    assert_eq!(js_trim("\u{FEFF} hello \u{FEFF}"), "hello");
    assert_eq!(js_trim("\u{0085}hello\u{0085}"), "\u{0085}hello\u{0085}");
    assert_eq!(js_trim("\u{200B}hello"), "\u{200B}hello");
    assert_eq!(js_trim("\u{FEFF} \u{3000}"), "");
}

#[test]
fn js_trim_keeps_interior_space_and_trims_again_to_itself() {
    let once = js_trim("\t\n  a \u{2003} b\r\n\u{00A0}");
    assert_eq!(once, "a \u{2003} b");
    assert_eq!(js_trim(once), once);
    assert_eq!(js_trim(""), "");
    assert_eq!(js_trim("\u{2028}\u{2029}\u{202F}\u{205F}\u{1680}x\u{000B}\u{000C}"), "x");
}
