use desktop_manager::codec::{encode_hint_list, encode_mime_list, parse_hint_list, parse_mime_list};
use desktop_manager::text::{contains_text, is_whitespace_char, split_text, text_equal, text_less, trim_text};
use desktop_manager::extract_extension_from_pattern;

#[test]
fn whitespace_agrees_with_std() {
    for code in 0u32..0x11_0000 {
        if let Some(c) = char::from_u32(code) {
            assert_eq!(is_whitespace_char(c), c.is_whitespace(), "{:?}", c);
        }
    }
}

#[test]
fn trim_agrees_with_std() {
    for s in ["", "   ", " a ", "\u{3000}x y\t\n", "abc", "\u{85}a\u{a0}"] {
        assert_eq!(trim_text(s), s.trim());
    }
}

#[test]
fn split_agrees_with_std() {
    for s in ["", ";", "a;b", ";a;;b;", "abc"] {
        let mine: Vec<&str> = split_text(s, ';');
        let std_pieces: Vec<&str> = s.split(';').collect();
        assert_eq!(mine, std_pieces);
    }
}

#[test]
fn comparisons() {
    assert!(text_equal("abc", "abc"));
    assert!(!text_equal("abc", "abd"));
    assert!(text_less("abc", "abd"));
    assert!(text_less("ab", "abc"));
    assert!(!text_less("abc", "abc"));
    assert!(!text_less("b", "abc"));
    assert!(text_less("Z", "a"));
    assert!(contains_text("hello world", "o w"));
    assert!(contains_text("hello", ""));
    assert!(!contains_text("hello", "hex"));
    assert!(!contains_text("he", "hello"));
}

#[test]
fn pattern_suffix_is_lowercased() {
    assert_eq!(extract_extension_from_pattern("*.TeXT"), Some(String::from("text")));
}

#[test]
fn mime_list_encoding() {
    let l = vec![String::from("text/plain"), String::from("image/png")];
    assert_eq!(encode_mime_list(&l), "text/plain;image/png;");
    assert_eq!(encode_mime_list(&Vec::new()), "");
    assert_eq!(parse_mime_list("text/plain;image/png;"), l);
    assert_eq!(parse_mime_list(" ; ;"), Vec::<String>::new());
    assert_eq!(parse_mime_list(&encode_mime_list(&l)), l);
}

#[test]
fn hint_list_encoding() {
    let hs = vec![
        (String::from("image/png"), String::from(".png")),
        (String::from("text/plain"), String::from("")),
    ];
    let text = encode_hint_list(&hs);
    assert_eq!(text, "image/png=.png;text/plain=");
    assert_eq!(parse_hint_list(&text), hs);
    assert_eq!(parse_hint_list(""), Vec::<(String, String)>::new());
    assert_eq!(
        parse_hint_list("a=b=c; nokey ; =x ;k = v"),
        vec![(String::from("a"), String::from("b=c")), (String::from("k"), String::from("v"))]
    );
}
