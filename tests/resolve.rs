use desktop_manager::{classify_input, resolve_extension, resolve_mime_from_input, synthetic_file_name, ContentGuess, MimeInput};

#[test]
fn extension_without_glob_entry() {
    let unknown = ContentGuess {
        content_type: String::from("application/octet-stream"),
        mime: None,
        uncertain: true,
    };
    assert_eq!(
        resolve_mime_from_input(".foo", Some(&unknown)),
        Some((String::from("application/x-foo"), String::from(".foo")))
    );
    assert_eq!(
        resolve_mime_from_input(".foo", None),
        Some((String::from("application/x-foo"), String::from(".foo")))
    );
}

#[test]
fn slash_input_is_a_mime_type() {
    assert_eq!(
        resolve_mime_from_input("application/pdf", None),
        Some((String::from("application/pdf"), String::new()))
    );
    assert_eq!(
        resolve_mime_from_input("  text/plain ", None),
        Some((String::from("text/plain"), String::new()))
    );
}

#[test]
fn only_empty_or_dots_fail() {
    assert_eq!(resolve_mime_from_input("", None), None);
    assert_eq!(resolve_mime_from_input("   ", None), None);
    assert_eq!(resolve_mime_from_input("...", None), None);
    assert_eq!(resolve_mime_from_input(" . ", None), None);
    assert!(resolve_mime_from_input("x", None).is_some());
    assert!(resolve_mime_from_input("./", None).is_some());
    assert_eq!(classify_input("..tar.gz"), MimeInput::Extension(String::from("tar.gz")));
}

#[test]
fn guesses_are_used_in_order() {
    let derived = ContentGuess {
        content_type: String::from("text/plain"),
        mime: Some(String::from("text/plain")),
        uncertain: true,
    };
    assert_eq!(resolve_extension("txt", &derived), (String::from("text/plain"), String::from(".txt")));
    let certain = ContentGuess { content_type: String::from("text/x-csv"), mime: None, uncertain: false };
    assert_eq!(resolve_extension("csv", &certain), (String::from("text/x-csv"), String::from(".csv")));
    let unsure = ContentGuess { content_type: String::from("text/x-csv"), mime: None, uncertain: true };
    assert_eq!(resolve_extension("CSV", &unsure), (String::from("application/x-csv"), String::from(".CSV")));
}

#[test]
fn synthetic_names() {
    assert_eq!(synthetic_file_name("foo"), "dummy.foo");
}
