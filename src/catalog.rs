//! The list of launchers: ordering, searching, creating and forgetting them.
use vstd::multiset::Multiset;
use vstd::prelude::*;
use crate::entry::DesktopEntry;
use crate::hints::ExtensionHints;
use crate::text::{
    contains_seq, contains_text, lemma_seq_lt_asymmetric, lemma_seq_lt_transitive, lower_of, lowercase, seq_lt, text_equal,
    text_less,
};

verus! {

/// The key that launchers are ordered by: the name, lowercased.
pub open spec fn name_key(e: DesktopEntry) -> Seq<char> {
    lower_of(e.name@)
}

/// Whether the launchers are in ascending order of `name_key`.
pub open spec fn sorted_by_name(s: Seq<DesktopEntry>) -> bool {
    forall|i: int, j: int| 0 <= i < j < s.len() ==> !seq_lt(name_key(#[trigger] s[j]), name_key(#[trigger] s[i]))
}

/// The same launchers, in ascending order of their lowercased names.
pub fn sort_by_name(entries: Vec<DesktopEntry>) -> (r: Vec<DesktopEntry>)
    ensures
        r@.to_multiset() == entries@.to_multiset(),
        sorted_by_name(r@),
{
    let ghost given = entries@;
    let mut input = entries;
    let mut out: Vec<DesktopEntry> = Vec::new();
    let mut keys: Vec<String> = Vec::new();
    proof {
        broadcast use vstd::seq_lib::group_to_multiset_ensures;
        assert(out@.to_multiset() =~= Multiset::<DesktopEntry>::empty());
        assert(out@.to_multiset().add(input@.to_multiset()) =~= given.to_multiset());
    }
    while input.len() > 0
        invariant
            out@.to_multiset().add(input@.to_multiset()) == given.to_multiset(),
            keys@.len() == out@.len(),
            forall|i: int| 0 <= i < out@.len() ==> (#[trigger] keys@[i])@ == name_key(out@[i]),
            sorted_by_name(out@),
        decreases input.len(),
    {
        let ghost before_in = input@;
        let ghost before_out = out@;
        let e = input.remove(0);
        let k = lowercase(e.name.as_str());
        let mut p: usize = 0;
        while p < out.len() && !text_less(k.as_str(), keys[p].as_str())
            invariant
                p <= out@.len(),
                keys@.len() == out@.len(),
                forall|i: int| 0 <= i < out@.len() ==> (#[trigger] keys@[i])@ == name_key(out@[i]),
                forall|i: int| 0 <= i < p ==> !seq_lt(k@, name_key(#[trigger] out@[i])),
            decreases out@.len() - p,
        {
            p = p + 1;
        }
        let ghost old_out = out@;
        let ghost ek = k@;
        out.insert(p, e);
        keys.insert(p, k);
        proof {
            broadcast use vstd::seq_lib::group_to_multiset_ensures;
            assert(input@ =~= before_in.remove(0));
            assert(out@ =~= old_out.insert(p as int, before_in[0]));
            assert(out@.to_multiset().add(input@.to_multiset()) =~= given.to_multiset());
            assert forall|i: int| 0 <= i < out@.len() implies (#[trigger] keys@[i])@ == name_key(out@[i]) by {
                if i < p {
                    assert(out@[i] == old_out[i]);
                } else if i > p {
                    assert(out@[i] == old_out[i - 1]);
                }
            }
            assert forall|i: int, j: int| 0 <= i < j < out@.len() implies !seq_lt(name_key(#[trigger] out@[j]), name_key(#[trigger] out@[i])) by {
                if j < p {
                    assert(out@[i] == old_out[i] && out@[j] == old_out[j]);
                } else if j == p {
                    assert(out@[i] == old_out[i]);
                } else if i > p {
                    assert(out@[i] == old_out[i - 1] && out@[j] == old_out[j - 1]);
                } else {
                    assert(out@[j] == old_out[j - 1]);
                    assert(seq_lt(ek, name_key(old_out[p as int])));
                    if i < p {
                        assert(out@[i] == old_out[i]);
                    } else {
                        assert(name_key(out@[i]) == ek);
                        if j - 1 > p && seq_lt(name_key(old_out[j - 1]), ek) {
                            lemma_seq_lt_transitive(name_key(old_out[j - 1]), ek, name_key(old_out[p as int]));
                        }
                        if j - 1 == p {
                            lemma_seq_lt_asymmetric(ek, name_key(old_out[p as int]));
                        }
                    }
                }
            }
        }
    }
    proof {
        assert(input@.to_multiset() =~= Multiset::<DesktopEntry>::empty());
        assert(out@.to_multiset().add(input@.to_multiset()) =~= out@.to_multiset());
    }
    out
}

impl DesktopEntry {
    /// Whether the launcher matches a search text that is already
    /// lowercase: an empty text matches all; else it must occur in the
    /// lowercased name or comment.
    pub fn matches_search(&self, query: &str) -> (r: bool)
        ensures
            r == (query@.len() == 0 || contains_seq(lower_of(self.name@), query@) || contains_seq(
                lower_of(self.comment@),
                query@,
            )),
    {
        if query.unicode_len() == 0 {
            return true;
        }
        let name = lowercase(self.name.as_str());
        let comment = lowercase(self.comment.as_str());
        contains_text(name.as_str(), query) || contains_text(comment.as_str(), query)
    }

    /// A new, unsaved launcher to be stored at `path`: named
    /// `New Application`, with the generic executable icon, of type
    /// `Application`, everything else empty.
    pub fn new_application(path: &str) -> (r: DesktopEntry)
        ensures
            r.path@ == path@,
            r.name@ == "New Application"@,
            r.exec_command@ == Seq::<char>::empty(),
            r.icon@ == "application-x-executable"@,
            r.comment@ == Seq::<char>::empty(),
            !r.terminal,
            r.categories@ == Seq::<char>::empty(),
            r.entry_type@ == "Application"@,
            r.mime_types@.len() == 0,
            r.mime_extensions@ == Map::<Seq<char>, Seq<char>>::empty(),
    {
        DesktopEntry {
            path: String::from_str(path),
            name: String::from_str("New Application"),
            exec_command: String::new(),
            icon: String::from_str("application-x-executable"),
            comment: String::new(),
            terminal: false,
            categories: String::new(),
            entry_type: String::from_str("Application"),
            mime_types: Vec::new(),
            mime_extensions: ExtensionHints::new(),
        }
    }
}

/// The launchers, in order, without those stored at `path`.
pub open spec fn without_path(s: Seq<DesktopEntry>, path: Seq<char>) -> Seq<DesktopEntry>
    decreases s.len(),
{
    if s.len() == 0 {
        s
    } else if s[0].path@ == path {
        without_path(s.drop_first(), path)
    } else {
        seq![s[0]] + without_path(s.drop_first(), path)
    }
}

/// Forgets the launchers stored at `path`; the others keep their order.
pub fn remove_by_path(entries: &mut Vec<DesktopEntry>, path: &str)
    ensures
        final(entries)@ == without_path(old(entries)@, path@),
{
    let ghost s = entries@;
    let mut i: usize = entries.len();
    assert(s.subrange(s.len() as int, s.len() as int) =~= Seq::<DesktopEntry>::empty());
    assert(entries@ =~= s.subrange(0, i as int) + without_path(s.subrange(i as int, s.len() as int), path@));
    while i > 0
        invariant
            i <= s.len(),
            entries@ == s.subrange(0, i as int) + without_path(s.subrange(i as int, s.len() as int), path@),
        decreases i,
    {
        let ghost tail = s.subrange(i - 1, s.len() as int);
        assert(tail.drop_first() =~= s.subrange(i as int, s.len() as int));
        assert(tail[0] == s[i - 1]);
        assert(entries@[i - 1] == s[i - 1]);
        if text_equal(entries[i - 1].path.as_str(), path) {
            let ghost before = entries@;
            entries.remove(i - 1);
            assert(entries@ =~= s.subrange(0, i - 1) + without_path(tail, path@));
        } else {
            assert(entries@ =~= s.subrange(0, i - 1) + without_path(tail, path@));
        }
        i = i - 1;
    }
    assert(s.subrange(0, s.len() as int) =~= s);
    assert(entries@ =~= without_path(s, path@));
}

/// Index of the last `.` in `s`, or `-1`.
pub open spec fn last_dot(s: Seq<char>) -> int
    decreases s.len(),
{
    if s.len() == 0 {
        -1
    } else if s.last() == '.' {
        s.len() - 1
    } else {
        last_dot(s.drop_last())
    }
}

/// Whether a file name has the extension `desktop`: the text after its
/// last `.`, where that dot is not the name's first character.
pub open spec fn is_desktop_file_name(name: Seq<char>) -> bool {
    last_dot(name) > 0 && name.subrange(last_dot(name) + 1, name.len() as int) == "desktop"@
}

/// Whether the file name is that of a launcher file.
pub fn has_desktop_extension(name: &str) -> (r: bool)
    ensures
        r == is_desktop_file_name(name@),
{
    let n = name.unicode_len();
    let mut i: usize = n;
    assert(name@.subrange(0, n as int) =~= name@);
    while i > 0 && name.get_char(i - 1) != '.'
        invariant
            i <= n,
            n == name@.len(),
            last_dot(name@) == last_dot(name@.subrange(0, i as int)),
        decreases i,
    {
        assert(name@.subrange(0, i as int).drop_last() =~= name@.subrange(0, i - 1));
        i = i - 1;
    }
    if i <= 1 {
        proof {
            if i == 1 {
                assert(name@.subrange(0, 1).last() == '.');
            } else {
                assert(name@.subrange(0, 0).len() == 0);
            }
        }
        return false;
    }
    assert(name@.subrange(0, i as int).last() == '.');
    text_equal(name.substring_char(i, n), "desktop")
}

/// Where an icon is taken from.
#[derive(Debug, PartialEq, Eq)]
pub enum IconSource {
    /// An image file at this path.
    File(String),
    /// An icon of the theme with this name.
    Named(String),
}

/// Where to take a launcher's icon from: the generic executable icon when
/// none is set, the file when the reference names an existing file, else
/// the theme icon of that name.
pub fn icon_source(icon: &str, is_file: bool) -> (r: IconSource)
    ensures
        icon@.len() == 0 ==> (r matches IconSource::Named(n) && n@ == "application-x-executable"@),
        icon@.len() > 0 && is_file ==> (r matches IconSource::File(f) && f@ == icon@),
        icon@.len() > 0 && !is_file ==> (r matches IconSource::Named(n) && n@ == icon@),
{
    if icon.unicode_len() == 0 {
        IconSource::Named(String::from_str("application-x-executable"))
    } else if is_file {
        IconSource::File(String::from_str(icon))
    } else {
        IconSource::Named(String::from_str(icon))
    }
}

/// Whether a file may be edited: its mode grants the owner write permission
/// and opening it for writing succeeded.
pub fn can_write(mode: u32, opened_for_write: bool) -> (r: bool)
    ensures
        r == ((mode & 0x80) != 0 && opened_for_write),
{
    (mode & 0x80) != 0 && opened_for_write
}

} // verus!
