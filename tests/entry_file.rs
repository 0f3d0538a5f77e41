use desktop_manager::{DesktopEntry, EntryError, ExtensionHints};

fn sample() -> DesktopEntry {
    let mut e = DesktopEntry::new_application("/tmp/sample.desktop");
    e.name = String::from("Viewer");
    e.exec_command = String::from("viewer %f");
    e.icon = String::from("viewer");
    e.comment = String::from("Views files");
    e.terminal = true;
    e.categories = String::from("Graphics;");
    e.mime_types = vec![String::from("text/plain"), String::from("image/png")];
    let mut hints = ExtensionHints::new();
    hints.insert(String::from("text/plain"), String::from(".txt"));
    hints.insert(String::from("image/png"), String::from(".png"));
    e.mime_extensions = hints;
    e
}

#[test]
fn load_defaults() {
    let e = DesktopEntry::parse("/a/foo.desktop", "[Desktop Entry]\nName=Foo").unwrap();
    assert_eq!(e.path, "/a/foo.desktop");
    assert_eq!(e.name, "Foo");
    assert_eq!(e.exec_command, "");
    assert_eq!(e.icon, "");
    assert_eq!(e.comment, "");
    assert!(!e.terminal);
    assert_eq!(e.categories, "");
    assert_eq!(e.entry_type, "Application");
    assert!(e.mime_types.is_empty());
    assert!(e.mime_extensions.pairs().is_empty());
}

#[test]
fn mime_list_parsing() {
    let text = "[Desktop Entry]\nName=Foo\nMimeType=text/plain;image/png;\n";
    let e = DesktopEntry::parse("/a/foo.desktop", text).unwrap();
    assert_eq!(e.mime_types, vec![String::from("text/plain"), String::from("image/png")]);
}

#[test]
fn all_fields_are_read() {
    let text = "[Desktop Entry]\nType=Link\nName=Foo\nExec=foo --bar\nIcon=foo-icon\nComment=Does foo\nTerminal=true\nCategories=Utility;\nMimeType= text/plain ;; image/png\nX-Manager-MimeExtensions=text/plain=.txt; image/png = .png ;broken;=.x\n";
    let e = DesktopEntry::parse("/p", text).unwrap();
    assert_eq!(e.entry_type, "Link");
    assert_eq!(e.exec_command, "foo --bar");
    assert_eq!(e.icon, "foo-icon");
    assert_eq!(e.comment, "Does foo");
    assert!(e.terminal);
    assert_eq!(e.categories, "Utility;");
    assert_eq!(e.mime_types, vec![String::from("text/plain"), String::from("image/png")]);
    let pairs = e.mime_extensions.pairs();
    assert_eq!(pairs.len(), 2);
    assert_eq!(e.mime_extensions.get("text/plain").unwrap(), ".txt");
    assert_eq!(e.mime_extensions.get("image/png").unwrap(), ".png");
}

#[test]
fn terminal_needs_exact_true() {
    let e = DesktopEntry::parse("/p", "[Desktop Entry]\nTerminal=True\n").unwrap();
    assert!(!e.terminal);
    let e = DesktopEntry::parse("/p", "[Desktop Entry]\nTerminal=false\n").unwrap();
    assert!(!e.terminal);
}

#[test]
fn missing_section_is_an_error() {
    let r = DesktopEntry::parse("/p", "[Other]\nName=Foo\n");
    assert_eq!(r.err(), Some(EntryError::MissingSection));
}

#[test]
fn unreadable_text_is_an_error() {
    let r = DesktopEntry::parse("/p", "[Desktop Entry]\n=value\n");
    assert_eq!(r.err(), Some(EntryError::Syntax));
}

#[test]
fn byte_order_mark_is_skipped() {
    let e = DesktopEntry::parse("/p", "\u{feff}[Desktop Entry]\nName=Bom\n").unwrap();
    assert_eq!(e.name, "Bom");
}

#[test]
fn later_hint_for_same_type_wins() {
    let text = "[Desktop Entry]\nX-Manager-MimeExtensions=text/plain=.txt;text/plain=.text\n";
    let e = DesktopEntry::parse("/p", text).unwrap();
    assert_eq!(e.mime_extensions.get("text/plain").unwrap(), ".text");
}

#[test]
fn saved_properties_are_exact() {
    let e = sample();
    let props = e.properties();
    let keys: Vec<&str> = props.iter().map(|p| p.0.as_str()).collect();
    assert_eq!(
        keys,
        vec!["Type", "Name", "Exec", "Icon", "Comment", "Terminal", "Categories", "MimeType", "X-Manager-MimeExtensions"]
    );
    assert_eq!(props[5].1, "true");
    assert_eq!(props[7].1, "text/plain;image/png;");
    assert_eq!(props[8].1, "image/png=.png;text/plain=.txt");
}

#[test]
fn saved_file_text() {
    let e = sample();
    let text = String::from_utf8(e.to_ini_bytes()).unwrap();
    assert_eq!(
        text,
        "[Desktop Entry]\nType=Application\nName=Viewer\nExec=viewer %f\nIcon=viewer\nComment=Views files\nTerminal=true\nCategories=Graphics;\nMimeType=text/plain;image/png;\nX-Manager-MimeExtensions=image/png=.png;text/plain=.txt\n"
    );
}

#[test]
fn empty_lists_are_saved_empty() {
    let e = DesktopEntry::new_application("/p");
    let props = e.properties();
    assert_eq!(props[7].1, "");
    assert_eq!(props[8].1, "");
}

#[test]
fn save_then_load_round_trip() {
    let e = sample();
    let text = String::from_utf8(e.to_ini_bytes()).unwrap();
    let back = DesktopEntry::parse("/tmp/sample.desktop", &text).unwrap();
    assert_eq!(back.mime_types, e.mime_types);
    assert_eq!(back.mime_extensions.pairs(), e.mime_extensions.pairs());
    assert_eq!(back.name, e.name);
    assert_eq!(back.exec_command, e.exec_command);
    assert_eq!(back.terminal, e.terminal);
}

#[test]
fn from_properties_takes_first_value() {
    let ps = vec![
        (String::from("Name"), String::from("First")),
        (String::from("Name"), String::from("Second")),
    ];
    let e = DesktopEntry::from_properties("/p", &ps);
    assert_eq!(e.name, "First");
    assert_eq!(e.entry_type, "Application");
}
