// The fixture decoder of the conformance suite: the shared codec's five
// escapes plus `\uXXXX` (exactly four hex digits, Basic Multilingual Plane
// only), decoded in one pass over the raw cell.

fn spec_unescape(text: &str) -> String {
    if !text.contains('\\') {
        return text.to_string();
    }
    let chars: Vec<char> = text.chars().collect();
    let mut out = String::with_capacity(text.len());
    let mut i = 0;
    while i < chars.len() {
        let c = chars[i];
        if c == '\\' && i + 1 < chars.len() {
            match chars[i + 1] {
                'n' => {
                    out.push('\n');
                    i += 2;
                    continue;
                }
                'r' => {
                    out.push('\r');
                    i += 2;
                    continue;
                }
                't' => {
                    out.push('\t');
                    i += 2;
                    continue;
                }
                '\\' => {
                    out.push('\\');
                    i += 2;
                    continue;
                }
                'u' => {
                    let hex: String = chars[i + 2..].iter().take(4).collect();
                    if hex.len() == 4 && hex.chars().all(|h| h.is_ascii_hexdigit()) {
                        let code = u32::from_str_radix(&hex, 16).expect("four hex digits");
                        out.push(char::from_u32(code).expect("a BMP code point, not a surrogate"));
                        i += 6;
                        continue;
                    }
                }
                _ => {}
            }
        }
        out.push(c);
        i += 1;
    }
    out
}

#[test]
fn spec_unescape_decodes_the_hoover_escapes() {
    assert_eq!(spec_unescape("a\\u0000b"), "a\u{0}b");
    assert_eq!(spec_unescape("<\\ufeffhello>"), "<\u{FEFF}hello>");
    assert_eq!(spec_unescape("\\n\\t\\r\\\\"), "\n\t\r\\");
    assert_eq!(spec_unescape("\\u00zz"), "\\u00zz");
    assert_eq!(spec_unescape("\\u12"), "\\u12");
    assert_eq!(spec_unescape("plain"), "plain");
}
