use desktop_manager::{
    can_write, has_desktop_extension, icon_source, mime_database_paths, push_unique_path, remove_by_path,
    sort_by_name, DesktopEntry, IconSource,
};

fn named(path: &str, name: &str) -> DesktopEntry {
    let mut e = DesktopEntry::new_application(path);
    e.name = String::from(name);
    e
}

#[test]
fn sorted_case_insensitively() {
    let v = vec![named("/1", "beta"), named("/2", "Alpha"), named("/3", "gamma"), named("/4", "ALPHA2")];
    let sorted = sort_by_name(v);
    let names: Vec<&str> = sorted.iter().map(|e| e.name.as_str()).collect();
    assert_eq!(names, vec!["Alpha", "ALPHA2", "beta", "gamma"]);
    assert!(sort_by_name(Vec::new()).is_empty());
}

#[test]
fn search_matches_name_or_comment() {
    let mut e = named("/1", "Text Editor");
    e.comment = String::from("Edit PLAIN files");
    assert!(e.matches_search(""));
    assert!(e.matches_search("editor"));
    assert!(e.matches_search("plain"));
    assert!(!e.matches_search("Editor"));
    assert!(!e.matches_search("image"));
}

#[test]
fn new_application_template() {
    let e = DesktopEntry::new_application("/home/u/.local/share/applications/new-application-1.desktop");
    assert_eq!(e.name, "New Application");
    assert_eq!(e.icon, "application-x-executable");
    assert_eq!(e.entry_type, "Application");
    assert_eq!(e.exec_command, "");
    assert!(!e.terminal);
}

#[test]
fn removal_by_path() {
    let mut v = vec![named("/1", "a"), named("/2", "b"), named("/1", "c"), named("/3", "d")];
    remove_by_path(&mut v, "/1");
    let names: Vec<&str> = v.iter().map(|e| e.name.as_str()).collect();
    assert_eq!(names, vec!["b", "d"]);
    remove_by_path(&mut v, "/9");
    assert_eq!(v.len(), 2);
}

#[test]
fn desktop_file_names() {
    assert!(has_desktop_extension("firefox.desktop"));
    assert!(has_desktop_extension("a.b.desktop"));
    assert!(!has_desktop_extension(".desktop"));
    assert!(!has_desktop_extension("firefox.desktop.bak"));
    assert!(!has_desktop_extension("desktop"));
    assert!(!has_desktop_extension("x.Desktop"));
}

#[test]
fn icon_sources() {
    assert_eq!(icon_source("", true), IconSource::Named(String::from("application-x-executable")));
    assert_eq!(icon_source("/i.png", true), IconSource::File(String::from("/i.png")));
    assert_eq!(icon_source("firefox", false), IconSource::Named(String::from("firefox")));
}

#[test]
fn write_permission() {
    assert!(can_write(0o644, true));
    assert!(!can_write(0o444, true));
    assert!(!can_write(0o644, false));
}

#[test]
fn database_paths_in_order_without_repeats() {
    let p = mime_database_paths(Some("/home/u/.data//"), Some("/home/u"), Some(" /usr/share/ : :/opt/d:/home/u/.data"));
    assert_eq!(
        p,
        vec![
            String::from("/home/u/.data/mime/globs2"),
            String::from("/home/u/.local/share/mime/globs2"),
            String::from("/usr/share/mime/globs2"),
            String::from("/opt/d/mime/globs2"),
            String::from("/usr/local/share/mime/globs2"),
        ]
    );
    let q = mime_database_paths(Some(""), None, None);
    assert_eq!(q, vec![String::from("/usr/local/share/mime/globs2"), String::from("/usr/share/mime/globs2")]);
}

#[test]
fn push_unique() {
    let mut v = vec![String::from("a")];
    push_unique_path(&mut v, String::from("a"));
    push_unique_path(&mut v, String::from("b"));
    assert_eq!(v, vec![String::from("a"), String::from("b")]);
}
