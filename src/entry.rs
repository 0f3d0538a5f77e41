//! A launcher record (desktop entry) and its reading from and writing to
//! the `[Desktop Entry]` section of an INI document.
use vstd::prelude::*;
use crate::codec::{
    hint_ok, lemma_hint_list_round_trip, lemma_mime_list_round_trip, mime_item_ok, encode_hint_list, encode_mime_list, hint_list_of, hint_list_text, mime_list_of, mime_list_text,
    pairs_view, parse_hint_list, parse_mime_list, strings_view,
};
use crate::hints::{pairs_map, ExtensionHints};
use crate::ini_doc::{
    find_section, first_value, ini_parse, ini_sections, ini_written, load_ini, only_section_at,
    section_index, section_pairs, set_entry, without_key, IniSection,
};
use crate::text::text_equal;

verus! {

/// Why a launcher file could not be read.
#[derive(Clone, Copy, Debug, PartialEq, Eq, Structural)]
pub enum EntryError {
    /// The text is not an INI document.
    Syntax,
    /// The document has no `[Desktop Entry]` section.
    MissingSection,
}

/// A launcher: where it is stored and what its `[Desktop Entry]` section says.
#[derive(Debug)]
pub struct DesktopEntry {
    pub path: String,
    pub name: String,
    pub exec_command: String,
    pub icon: String,
    pub comment: String,
    pub terminal: bool,
    pub categories: String,
    pub entry_type: String,
    pub mime_types: Vec<String>,
    pub mime_extensions: ExtensionHints,
}

/// The section that holds a launcher.
pub open spec fn entry_section() -> Seq<char> {
    "Desktop Entry"@
}

/// The key under which the extension hints are stored.
pub open spec fn hints_key() -> Seq<char> {
    "X-Manager-MimeExtensions"@
}

/// The value of the first pair with `key`, or `default`.
pub open spec fn value_or(ps: Seq<(Seq<char>, Seq<char>)>, key: Seq<char>, default: Seq<char>) -> Seq<char> {
    match first_value(ps, key) {
        Some(v) => v,
        None => default,
    }
}

/// Whether `e` is the launcher stored at `path` whose section holds the pairs `ps`:
/// missing keys read as empty, but `Type` as `Application`; `Terminal` is
/// set only by the exact value `true`; the MIME types and the extension hints
/// are decoded from their keys.
pub open spec fn read_from(e: DesktopEntry, path: Seq<char>, ps: Seq<(Seq<char>, Seq<char>)>) -> bool {
    &&& e.path@ == path
    &&& e.name@ == value_or(ps, "Name"@, Seq::empty())
    &&& e.exec_command@ == value_or(ps, "Exec"@, Seq::empty())
    &&& e.icon@ == value_or(ps, "Icon"@, Seq::empty())
    &&& e.comment@ == value_or(ps, "Comment"@, Seq::empty())
    &&& e.terminal == (first_value(ps, "Terminal"@) == Some("true"@))
    &&& e.categories@ == value_or(ps, "Categories"@, Seq::empty())
    &&& e.entry_type@ == value_or(ps, "Type"@, "Application"@)
    &&& strings_view(e.mime_types@) == mime_list_of(value_or(ps, "MimeType"@, Seq::empty()))
    &&& e.mime_extensions@ == pairs_map(hint_list_of(value_or(ps, hints_key(), Seq::empty())))
}

/// The text with a leading byte order mark removed.
pub open spec fn without_bom(text: Seq<char>) -> Seq<char> {
    if text.len() > 0 && text[0] == '\u{feff}' {
        text.drop_first()
    } else {
        text
    }
}

/// The value of the first pair with `key`.
fn lookup_value<'a>(ps: &'a Vec<(String, String)>, key: &str) -> (r: Option<&'a String>)
    ensures
        match r {
            Some(v) => first_value(pairs_view(ps@), key@) == Some(v@),
            None => first_value(pairs_view(ps@), key@) is None,
        },
{
    let ghost s = pairs_view(ps@);
    let mut i: usize = 0;
    assert(s.subrange(0, s.len() as int) =~= s);
    while i < ps.len()
        invariant
            i <= ps.len(),
            s == pairs_view(ps@),
            first_value(s, key@) == first_value(s.subrange(i as int, s.len() as int), key@),
        decreases ps.len() - i,
    {
        proof {
            assert(s.subrange(i as int, s.len() as int).drop_first() =~= s.subrange(i + 1, s.len() as int));
        }
        if text_equal(ps[i].0.as_str(), key) {
            return Some(&ps[i].1);
        }
        i = i + 1;
    }
    None
}

/// The value of the first pair with `key`, or `default`, as a new string.
fn value_or_default(ps: &Vec<(String, String)>, key: &str, default: &str) -> (r: String)
    ensures
        r@ == value_or(pairs_view(ps@), key@, default@),
{
    match lookup_value(ps, key) {
        Some(v) => v.clone(),
        None => String::from_str(default),
    }
}

impl DesktopEntry {
    /// A copy of this launcher.
    pub fn duplicate(&self) -> (r: DesktopEntry)
        ensures
            r.path == self.path,
            r.name == self.name,
            r.exec_command == self.exec_command,
            r.icon == self.icon,
            r.comment == self.comment,
            r.terminal == self.terminal,
            r.categories == self.categories,
            r.entry_type == self.entry_type,
            r.mime_types@ == self.mime_types@,
            r.mime_extensions@ == self.mime_extensions@,
    {
        DesktopEntry {
            path: self.path.clone(),
            name: self.name.clone(),
            exec_command: self.exec_command.clone(),
            icon: self.icon.clone(),
            comment: self.comment.clone(),
            terminal: self.terminal,
            categories: self.categories.clone(),
            entry_type: self.entry_type.clone(),
            mime_types: crate::associations::copy_strings(&self.mime_types),
            mime_extensions: self.mime_extensions.duplicate(),
        }
    }

    /// The launcher stored at `path` whose section holds the pairs `ps`, in order.
    pub fn from_properties(path: &str, ps: &Vec<(String, String)>) -> (r: DesktopEntry)
        ensures
            read_from(r, path@, pairs_view(ps@)),
    {
        let terminal = match lookup_value(ps, "Terminal") {
            Some(v) => text_equal(v.as_str(), "true"),
            None => false,
        };
        let mime_value = value_or_default(ps, "MimeType", "");
        let hint_value = value_or_default(ps, "X-Manager-MimeExtensions", "");
        let hint_pairs = parse_hint_list(hint_value.as_str());
        proof {
            reveal_strlit("");
            assert(""@ =~= Seq::<char>::empty());
        }
        let r = DesktopEntry {
            path: String::from_str(path),
            name: value_or_default(ps, "Name", ""),
            exec_command: value_or_default(ps, "Exec", ""),
            icon: value_or_default(ps, "Icon", ""),
            comment: value_or_default(ps, "Comment", ""),
            terminal,
            categories: value_or_default(ps, "Categories", ""),
            entry_type: value_or_default(ps, "Type", "Application"),
            mime_types: parse_mime_list(mime_value.as_str()),
            mime_extensions: ExtensionHints::from_pairs(&hint_pairs),
        };
        r
    }

    /// Reads the launcher stored at `path` from the text of its file. A
    /// leading byte order mark is skipped; the text must be an INI document
    /// with a `[Desktop Entry]` section.
    pub fn parse(path: &str, text: &str) -> (r: Result<DesktopEntry, EntryError>)
        ensures
            match ini_parse(without_bom(text@)) {
                None => r == Err::<DesktopEntry, EntryError>(EntryError::Syntax),
                Some(d) => if section_index(d, entry_section()) < 0 {
                    r == Err::<DesktopEntry, EntryError>(EntryError::MissingSection)
                } else {
                    r is Ok && read_from(r->Ok_0, path@, d[section_index(d, entry_section())].1)
                },
            },
    {
        let n = text.unicode_len();
        let body = if n > 0 && text.get_char(0) == '\u{feff}' {
            text.substring_char(1, n)
        } else {
            text
        };
        proof {
            if n > 0 && text@[0] == '\u{feff}' {
                assert(body@ =~= text@.drop_first());
            }
        }
        match load_ini(body) {
            Err(_) => Err(EntryError::Syntax),
            Ok(doc) => match find_section(&doc, "Desktop Entry") {
                None => Err(EntryError::MissingSection),
                Some(props) => {
                    let ps = section_pairs(props);
                    Ok(DesktopEntry::from_properties(path, &ps))
                },
            },
        }
    }

    /// The pairs that saving writes into the section, in order.
    pub open spec fn properties_spec(&self) -> Seq<(Seq<char>, Seq<char>)> {
        seq![
            ("Type"@, self.entry_type@),
            ("Name"@, self.name@),
            ("Exec"@, self.exec_command@),
            ("Icon"@, self.icon@),
            ("Comment"@, self.comment@),
            ("Terminal"@, if self.terminal { "true"@ } else { "false"@ }),
            ("Categories"@, self.categories@),
            ("MimeType"@, mime_list_text(strings_view(self.mime_types@))),
            (hints_key(), hint_list_text(self.mime_extensions.entries())),
        ]
    }

    /// The pairs that saving writes: every attribute, the MIME types each
    /// followed by `;`, and the extension hints as `mime=extension` joined by
    /// `;` in ascending order of MIME type.
    pub fn properties(&self) -> (r: Vec<(String, String)>)
        ensures
            pairs_view(r@) == self.properties_spec(),
    {
        let mut r: Vec<(String, String)> = Vec::new();
        r.push((String::from_str("Type"), self.entry_type.clone()));
        r.push((String::from_str("Name"), self.name.clone()));
        r.push((String::from_str("Exec"), self.exec_command.clone()));
        r.push((String::from_str("Icon"), self.icon.clone()));
        r.push((String::from_str("Comment"), self.comment.clone()));
        let terminal = if self.terminal {
            String::from_str("true")
        } else {
            String::from_str("false")
        };
        r.push((String::from_str("Terminal"), terminal));
        r.push((String::from_str("Categories"), self.categories.clone()));
        r.push((String::from_str("MimeType"), encode_mime_list(&self.mime_types)));
        r.push(
            (
                String::from_str("X-Manager-MimeExtensions"),
                encode_hint_list(self.mime_extensions.pairs()),
            ),
        );
        assert(pairs_view(r@) =~= self.properties_spec());
        r
    }

    /// The document that saving writes: an empty general section, then the
    /// launcher's section with `properties_spec`.
    pub open spec fn document_spec(&self) -> Seq<IniSection> {
        seq![(None, Seq::empty()), (Some(entry_section()), self.properties_spec())]
    }

    /// The bytes of the file that saving writes.
    pub fn to_ini_bytes(&self) -> (r: Vec<u8>)
        ensures
            r@ == ini_written(self.document_spec()),
    {
        let ps = self.properties();
        let ghost s = pairs_view(ps@);
        let ghost sec = entry_section();
        let mut doc = ini::Ini::new();
        proof {
            lemma_property_keys_distinct(self);
            reveal_strlit("Desktop Entry");
        }
        let mut i: usize = 0;
        while i < ps.len()
            invariant
                i <= ps.len(),
                s == pairs_view(ps@),
                s.len() == 9,
                sec == "Desktop Entry"@,
                sec.len() == 13,
                forall|a: int, b: int| 0 <= a < b < s.len() ==> (#[trigger] s[a]).0 != (#[trigger] s[b]).0,
                i == 0 ==> ini_sections(doc) == seq![(None::<Seq<char>>, Seq::<(Seq<char>, Seq<char>)>::empty())],
                i > 0 ==> ini_sections(doc) == seq![(None::<Seq<char>>, Seq::<(Seq<char>, Seq<char>)>::empty()), (Some(sec), s.subrange(0, i as int))],
            decreases ps.len() - i,
        {
            let ghost before = ini_sections(doc);
            set_entry(&mut doc, "Desktop Entry", ps[i].0.as_str(), ps[i].1.as_str());
            proof {
                if i == 0 {
                    assert(section_index(before, sec) < 0) by {
                        assert(before.drop_first().len() == 0);
                        assert(section_index(before.drop_first(), sec) == -1);
                    }
                    assert(s.subrange(0, 1) =~= seq![s[0]]);
                } else {
                    assert(only_section_at(before, sec, 1));
                    let prefix = s.subrange(0, i as int);
                    lemma_without_absent_key(prefix, s[i as int].0);
                    assert(s.subrange(0, i + 1) =~= prefix.push(s[i as int]));
                    assert(before.update(1, (Some(sec), prefix.push(s[i as int]))) =~= seq![(None::<Seq<char>>, Seq::<(Seq<char>, Seq<char>)>::empty()), (Some(sec), s.subrange(0, i + 1))]);
                }
            }
            i = i + 1;
        }
        proof {
            assert(s.subrange(0, 9) =~= s);
            assert(ini_sections(doc) =~= self.document_spec());
        }
        crate::ini_doc::write_ini(&doc)
    }
}

proof fn lemma_without_absent_key(ps: Seq<(Seq<char>, Seq<char>)>, key: Seq<char>)
    requires
        forall|j: int| 0 <= j < ps.len() ==> (#[trigger] ps[j]).0 != key,
    ensures
        without_key(ps, key) == ps,
    decreases ps.len(),
{
    if ps.len() > 0 {
        let rest = ps.drop_last();
        assert(ps[ps.len() - 1].0 != key);
        assert forall|j: int| 0 <= j < rest.len() implies (#[trigger] rest[j]).0 != key by {
            assert(rest[j] == ps[j]);
        }
        lemma_without_absent_key(rest, key);
        assert(rest.push(ps.last()) =~= ps);
    }
}

/// No two pairs that saving writes share a key.
pub proof fn lemma_property_keys_distinct(e: &DesktopEntry)
    ensures
        forall|a: int, b: int|
            0 <= a < b < e.properties_spec().len() ==> (#[trigger] e.properties_spec()[a]).0
                != (#[trigger] e.properties_spec()[b]).0,
{
    let s = e.properties_spec();
    reveal_strlit("Type");
    reveal_strlit("Name");
    reveal_strlit("Exec");
    reveal_strlit("Icon");
    reveal_strlit("Comment");
    reveal_strlit("Terminal");
    reveal_strlit("Categories");
    reveal_strlit("MimeType");
    reveal_strlit("X-Manager-MimeExtensions");
    assert(s[0].0.len() == 4 && s[0].0[0] == 'T');
    assert(s[1].0.len() == 4 && s[1].0[0] == 'N');
    assert(s[2].0.len() == 4 && s[2].0[0] == 'E');
    assert(s[3].0.len() == 4 && s[3].0[0] == 'I');
    assert(s[4].0.len() == 7);
    assert(s[5].0.len() == 8 && s[5].0[0] == 'T');
    assert(s[6].0.len() == 10);
    assert(s[7].0.len() == 8 && s[7].0[0] == 'M');
    assert(s[8].0.len() == 24);
    assert forall|a: int, b: int| 0 <= a < b < s.len() implies (#[trigger] s[a]).0 != (#[trigger] s[b]).0 by {
        assert(0 <= a < 9 && 0 <= b < 9);
        assert(a == 0 || a == 1 || a == 2 || a == 3 || a == 4 || a == 5 || a == 6 || a == 7);
        assert(b == 1 || b == 2 || b == 3 || b == 4 || b == 5 || b == 6 || b == 7 || b == 8);
        if s[a].0 == s[b].0 {
            assert(s[a].0.len() == s[b].0.len());
            assert(s[a].0[0] == s[b].0[0]);
        }
    }
}

proof fn lemma_first_value_at(ps: Seq<(Seq<char>, Seq<char>)>, i: int)
    requires
        0 <= i < ps.len(),
        forall|j: int| 0 <= j < i ==> (#[trigger] ps[j]).0 != ps[i].0,
    ensures
        first_value(ps, ps[i].0) == Some(ps[i].1),
    decreases i,
{
    if i > 0 {
        let rest = ps.drop_first();
        assert forall|j: int| 0 <= j < i - 1 implies (#[trigger] rest[j]).0 != rest[i - 1].0 by {
            assert(rest[j] == ps[j + 1]);
        }
        lemma_first_value_at(rest, i - 1);
    }
}

/// Saving a launcher and reading back the section it wrote gives the same
/// MIME types in the same order and the same extension hints, when each MIME
/// type is non-empty, has no surrounding whitespace and holds no `;`, and each
/// hint has a non-empty MIME type without `=`, neither side having
/// surrounding whitespace or a `;`.
pub proof fn lemma_save_load_round_trip(e: &DesktopEntry, back: DesktopEntry, path: Seq<char>)
    requires
        forall|i: int|
            0 <= i < e.mime_types@.len() ==> mime_item_ok(#[trigger] strings_view(e.mime_types@)[i]),
        forall|i: int|
            0 <= i < e.mime_extensions.entries().len() ==> hint_ok(
                #[trigger] e.mime_extensions.entries()[i],
            ),
        read_from(back, path, e.properties_spec()),
    ensures
        strings_view(back.mime_types@) == strings_view(e.mime_types@),
        back.mime_extensions@ == e.mime_extensions@,
{
    let s = e.properties_spec();
    lemma_property_keys_distinct(e);
    lemma_first_value_at(s, 7);
    lemma_first_value_at(s, 8);
    lemma_mime_list_round_trip(strings_view(e.mime_types@));
    lemma_hint_list_round_trip(e.mime_extensions.entries());
}

} // verus!
