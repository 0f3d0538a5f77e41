use desktop_manager::{extension_label, AssociationSet, DesktopEntry, ExtensionHints};

#[test]
fn add_twice_changes_nothing() {
    let mut set = AssociationSet::new();
    assert!(set.add("text/plain", Some(".txt")));
    let len = set.mime_types().len();
    assert!(!set.add("text/plain", Some(".text")));
    assert_eq!(set.mime_types().len(), len);
    let known = ExtensionHints::new();
    assert_eq!(set.shown_extension(&known, "text/plain").unwrap(), ".txt");
}

#[test]
fn adds_and_removes_never_repeat() {
    let mut set = AssociationSet::new();
    let steps = [
        (true, "a/x"), (true, "b/y"), (true, "a/x"), (false, "b/y"), (true, "b/y"),
        (false, "c/z"), (true, "c/z"), (true, "b/y"), (false, "a/x"), (true, "a/x"),
    ];
    for (add, m) in steps {
        if add {
            set.add(m, None);
        } else {
            set.remove(m);
        }
        let types = set.mime_types();
        for i in 0..types.len() {
            for j in (i + 1)..types.len() {
                assert_ne!(types[i], types[j]);
            }
        }
    }
    assert_eq!(set.mime_types(), &vec![String::from("b/y"), String::from("c/z"), String::from("a/x")]);
}

#[test]
fn remove_drops_type_and_extension() {
    let mut set = AssociationSet::new();
    set.add("text/plain", Some(".txt"));
    set.add("image/png", None);
    set.remove("text/plain");
    set.remove("text/plain");
    set.remove("not/there");
    assert_eq!(set.mime_types(), &vec![String::from("image/png")]);
    assert!(set.shown_extension(&ExtensionHints::new(), "text/plain").is_none());
}

#[test]
fn hint_falls_back_to_known() {
    let mut known = ExtensionHints::new();
    known.insert(String::from("image/png"), String::from(".png"));
    let mut set = AssociationSet::new();
    let (added, ext) = set.add_with_hint(&mut known, "image/png", "");
    assert!(added);
    assert_eq!(ext.unwrap(), ".png");
    let (added, ext) = set.add_with_hint(&mut known, "text/x-foo", ".foo");
    assert!(added);
    assert_eq!(ext.unwrap(), ".foo");
    assert_eq!(known.get("text/x-foo").unwrap(), ".foo");
    let (added, ext) = set.add_with_hint(&mut known, "text/x-bar", "");
    assert!(added);
    assert!(ext.is_none());
    assert_eq!(set.shown_extension(&known, "text/x-bar"), None);
}

#[test]
fn known_hint_is_not_replaced() {
    let mut known = ExtensionHints::new();
    known.insert(String::from("image/jpeg"), String::from(".jpg"));
    let mut set = AssociationSet::new();
    let (_, ext) = set.add_with_hint(&mut known, "image/jpeg", ".jpeg");
    assert_eq!(ext.unwrap(), ".jpeg");
    assert_eq!(known.get("image/jpeg").unwrap(), ".jpg");
}

#[test]
fn own_hint_before_known() {
    let mut known = ExtensionHints::new();
    known.insert(String::from("text/plain"), String::from(".txt"));
    let mut entry = DesktopEntry::new_application("/p");
    entry.mime_types = vec![String::from("text/plain"), String::from("text/csv")];
    entry.mime_extensions.insert(String::from("text/plain"), String::from(".text"));
    let set = AssociationSet::from_entry(&entry);
    assert_eq!(set.shown_extension(&known, "text/plain").unwrap(), ".text");
    assert!(set.shown_extension(&known, "text/csv").is_none());
}

#[test]
fn store_into_entry() {
    let mut entry = DesktopEntry::new_application("/p");
    let mut set = AssociationSet::new();
    set.add("text/plain", Some(".txt"));
    set.store_into(&mut entry);
    assert_eq!(entry.mime_types, vec![String::from("text/plain")]);
    assert_eq!(entry.mime_extensions.get("text/plain").unwrap(), ".txt");
    assert_eq!(entry.name, "New Application");
}

#[test]
fn extension_labels() {
    assert_eq!(extension_label(Some(".txt")), ".txt");
    assert_eq!(extension_label(Some("")), "\u{2014}");
    assert_eq!(extension_label(None), "\u{2014}");
}

#[test]
fn hints_are_ordered_by_type() {
    let mut h = ExtensionHints::new();
    h.insert(String::from("text/plain"), String::from(".txt"));
    h.insert(String::from("application/pdf"), String::from(".pdf"));
    h.insert(String::from("image/png"), String::from(".png"));
    h.insert(String::from("image/png"), String::from(".PNG"));
    let keys: Vec<&str> = h.pairs().iter().map(|p| p.0.as_str()).collect();
    assert_eq!(keys, vec!["application/pdf", "image/png", "text/plain"]);
    assert_eq!(h.get("image/png").unwrap(), ".PNG");
    h.remove("image/png");
    assert!(h.get("image/png").is_none());
    assert_eq!(h.pairs().len(), 2);
}

#[test]
fn own_hint_before_known_when_adding() {
    let mut known = ExtensionHints::new();
    known.insert(String::from("text/plain"), String::from(".txt"));
    let mut entry = DesktopEntry::new_application("/p");
    entry.mime_extensions.insert(String::from("text/plain"), String::from(".text"));
    let mut set = AssociationSet::from_entry(&entry);
    let (added, ext) = set.add_with_hint(&mut known, "text/plain", "");
    assert!(added);
    assert_eq!(ext.unwrap(), ".text");
    assert_eq!(set.shown_extension(&ExtensionHints::new(), "text/plain").unwrap(), ".text");
    assert_eq!(known.get("text/plain").unwrap(), ".txt");
}
