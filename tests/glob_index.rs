use desktop_manager::{
    build_mime_extension_map, extract_extension_from_pattern, mime_description, parse_glob_line, parse_weight,
    GlobIndex, MimeChoice,
};

#[test]
fn higher_weight_wins_either_order() {
    let mut a = GlobIndex::new();
    a.add_line("50:text/x-low:*.foo");
    a.add_line("60:text/x-high:*.foo");
    assert_eq!(a.lookup("foo").unwrap().0, "text/x-high");
    let mut b = GlobIndex::new();
    b.add_line("60:text/x-high:*.foo");
    b.add_line("50:text/x-low:*.foo");
    assert_eq!(b.lookup("foo").unwrap().0, "text/x-high");
    assert_eq!(b.lookup("foo").unwrap().1, 60);
}

#[test]
fn equal_weight_later_wins() {
    let mut a = GlobIndex::new();
    a.add_line("50:text/x-first:*.foo");
    a.add_line("50:text/x-second:*.foo");
    assert_eq!(a.lookup("foo").unwrap().0, "text/x-second");
}

#[test]
fn glob_lines() {
    assert_eq!(parse_glob_line("50:text/plain:*.txt"), Some((String::from("txt"), String::from("text/plain"), 50)));
    assert_eq!(parse_glob_line("  80 : image/png : *.PNG  "), Some((String::from("png"), String::from("image/png"), 0)));
    assert_eq!(parse_glob_line("80:image/png:*.PNG"), Some((String::from("png"), String::from("image/png"), 80)));
    assert_eq!(parse_glob_line("x:text/plain:*.txt"), Some((String::from("txt"), String::from("text/plain"), 0)));
    assert_eq!(parse_glob_line("# comment"), None);
    assert_eq!(parse_glob_line("   "), None);
    assert_eq!(parse_glob_line("50:text/plain"), None);
    assert_eq!(parse_glob_line("50::*.txt"), None);
    assert_eq!(parse_glob_line("50:text/plain:README"), None);
    assert_eq!(parse_glob_line("50:text/plain:*.[ch]"), None);
    assert_eq!(parse_glob_line("50:text/x-c:*.c:cs"), Some((String::from("c:cs"), String::from("text/x-c"), 50)));
}

#[test]
fn weights() {
    assert_eq!(parse_weight("50"), 50);
    assert_eq!(parse_weight("+7"), 7);
    assert_eq!(parse_weight("4294967295"), 4294967295);
    assert_eq!(parse_weight("4294967296"), 0);
    assert_eq!(parse_weight("99999999999x"), 0);
    assert_eq!(parse_weight("-1"), 0);
    assert_eq!(parse_weight(""), 0);
    assert_eq!(parse_weight("+"), 0);
    assert_eq!(parse_weight(" 5"), 0);
}

#[test]
fn patterns() {
    assert_eq!(extract_extension_from_pattern("*.TXT"), Some(String::from("txt")));
    assert_eq!(extract_extension_from_pattern("*.tar.gz"), Some(String::from("tar.gz")));
    assert_eq!(extract_extension_from_pattern("*."), None);
    assert_eq!(extract_extension_from_pattern("*.a?"), None);
    assert_eq!(extract_extension_from_pattern("*.a!"), None);
    assert_eq!(extract_extension_from_pattern("x.txt"), None);
    assert_eq!(extract_extension_from_pattern("Makefile"), None);
}

#[test]
fn choices_are_sorted_with_dots() {
    let mut idx = GlobIndex::new();
    idx.add_line("50:text/plain:*.txt");
    idx.add_line("50:image/png:*.png");
    idx.add_line("50:application/pdf:*.pdf");
    idx.add_line("60:text/x-log:*.txt");
    let cs = idx.choices();
    let exts: Vec<&str> = cs.iter().map(|c| c.extension.as_str()).collect();
    assert_eq!(exts, vec![".pdf", ".png", ".txt"]);
    assert_eq!(cs[2].mime_type, "text/x-log");
    assert_eq!(cs[2].description, "text/x-log");
}

#[test]
fn first_extension_per_type() {
    let choices = vec![
        MimeChoice { extension: String::from(".jpeg"), mime_type: String::from("image/jpeg"), description: String::new() },
        MimeChoice { extension: String::from(".jpg"), mime_type: String::from("image/jpeg"), description: String::new() },
        MimeChoice { extension: String::from(".txt"), mime_type: String::from("text/plain"), description: String::new() },
    ];
    let m = build_mime_extension_map(&choices);
    assert_eq!(m.get("image/jpeg").unwrap(), ".jpeg");
    assert_eq!(m.get("text/plain").unwrap(), ".txt");
    assert!(m.get("image/png").is_none());
}

#[test]
fn descriptions() {
    assert_eq!(mime_description("text/plain", Some("Plain text")), "Plain text");
    assert_eq!(mime_description("text/plain", Some("")), "text/plain");
    assert_eq!(mime_description("text/plain", None), "text/plain");
}

#[test]
fn choice_queries() {
    let c = MimeChoice {
        extension: String::from(".PNG"),
        mime_type: String::from("image/png"),
        description: String::from("PNG Image"),
    };
    assert!(c.matches_query(""));
    assert!(c.matches_query(".png"));
    assert!(c.matches_query("image"));
    assert!(c.matches_query("g im"));
    assert!(!c.matches_query("jpeg"));
}

#[test]
fn whole_database_text() {
    let mut idx = GlobIndex::new();
    idx.add_database_text("# comment\n50:text/x-low:*.foo\r\n\n60:text/x-high:*.foo\n40:text/x-other:*.foo\n50:image/png:*.png\n");
    assert_eq!(idx.lookup("foo").unwrap().0, "text/x-high");
    assert_eq!(idx.lookup("png").unwrap().0, "image/png");
    assert!(idx.lookup("txt").is_none());
}
