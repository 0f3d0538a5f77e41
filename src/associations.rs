//! The MIME associations of the launcher being edited: an ordered list of
//! MIME types without repeats, and the extension shown for each.
use vstd::prelude::*;
use crate::codec::strings_view;
use crate::entry::DesktopEntry;
use crate::hints::ExtensionHints;
use crate::text::text_equal;

verus! {

/// No item occurs twice.
pub open spec fn no_duplicates(l: Seq<Seq<char>>) -> bool {
    forall|i: int, j: int| 0 <= i < j < l.len() ==> l[i] != l[j]
}

/// `l` with `m` appended, unless `m` is in it already.
pub open spec fn with_added(l: Seq<Seq<char>>, m: Seq<char>) -> Seq<Seq<char>> {
    if l.contains(m) {
        l
    } else {
        l.push(m)
    }
}

/// `l` without any occurrence of `m`.
pub open spec fn without_item(l: Seq<Seq<char>>, m: Seq<char>) -> Seq<Seq<char>>
    decreases l.len(),
{
    if l.len() == 0 {
        l
    } else if l.last() == m {
        without_item(l.drop_last(), m)
    } else {
        without_item(l.drop_last(), m).push(l.last())
    }
}

/// The list after the steps, in order: `(true, m)` adds `m`, `(false, m)` removes it.
pub open spec fn after_steps(l: Seq<Seq<char>>, steps: Seq<(bool, Seq<char>)>) -> Seq<Seq<char>>
    decreases steps.len(),
{
    if steps.len() == 0 {
        l
    } else if steps.last().0 {
        with_added(after_steps(l, steps.drop_last()), steps.last().1)
    } else {
        without_item(after_steps(l, steps.drop_last()), steps.last().1)
    }
}

proof fn lemma_without_item_subset(l: Seq<Seq<char>>, m: Seq<char>, x: Seq<char>)
    requires
        without_item(l, m).contains(x),
    ensures
        l.contains(x),
        x != m,
    decreases l.len(),
{
    if l.len() > 0 {
        let w = without_item(l.drop_last(), m);
        if l.last() != m && x == l.last() {
            assert(l[l.len() - 1] == x);
        } else {
            if l.last() != m {
                let k = choose|k: int| 0 <= k < without_item(l, m).len() && without_item(l, m)[k] == x;
                assert(w.push(l.last())[k] == x);
                assert(w[k] == x);
            }
            lemma_without_item_subset(l.drop_last(), m, x);
            let k = choose|k: int| 0 <= k < l.drop_last().len() && l.drop_last()[k] == x;
            assert(l[k] == x);
        }
    }
}

proof fn lemma_without_item_unique(l: Seq<Seq<char>>, m: Seq<char>)
    requires
        no_duplicates(l),
    ensures
        no_duplicates(without_item(l, m)),
        !without_item(l, m).contains(m),
    decreases l.len(),
{
    if l.len() > 0 {
        let l2 = l.drop_last();
        assert(no_duplicates(l2)) by {
            assert forall|i: int, j: int| 0 <= i < j < l2.len() implies l2[i] != l2[j] by {
                assert(l2[i] == l[i] && l2[j] == l[j]);
            }
        }
        lemma_without_item_unique(l2, m);
        let w = without_item(l2, m);
        if l.last() != m {
            assert(!w.contains(l.last())) by {
                if w.contains(l.last()) {
                    lemma_without_item_subset(l2, m, l.last());
                    let k = choose|k: int| 0 <= k < l2.len() && l2[k] == l.last();
                    assert(l[k] == l[l.len() - 1]);
                }
            }
            assert forall|i: int, j: int| 0 <= i < j < w.push(l.last()).len() implies w.push(l.last())[i]
                != w.push(l.last())[j] by {
                if j == w.len() {
                    assert(w.push(l.last())[i] == w[i]);
                    if w[i] == l.last() {
                        assert(w.contains(l.last()));
                    }
                }
            }
            assert(!w.push(l.last()).contains(m)) by {
                if w.push(l.last()).contains(m) {
                    let k = choose|k: int| 0 <= k < w.push(l.last()).len() && w.push(l.last())[k] == m;
                    if k < w.len() {
                        assert(w[k] == m);
                        assert(w.contains(m));
                    }
                }
            }
        }
    }
}

proof fn lemma_with_added_unique(l: Seq<Seq<char>>, m: Seq<char>)
    requires
        no_duplicates(l),
    ensures
        no_duplicates(with_added(l, m)),
{
    if !l.contains(m) {
        assert forall|i: int, j: int| 0 <= i < j < l.push(m).len() implies l.push(m)[i] != l.push(m)[j] by {
            if j == l.len() {
                assert(l.push(m)[i] == l[i]);
                if l[i] == m {
                    assert(l.contains(m));
                }
            }
        }
    }
}

/// Whatever adds and removes are made, in whatever order, a list without
/// repeated MIME types never gets one.
pub proof fn lemma_steps_keep_unique(l: Seq<Seq<char>>, steps: Seq<(bool, Seq<char>)>)
    requires
        no_duplicates(l),
    ensures
        no_duplicates(after_steps(l, steps)),
    decreases steps.len(),
{
    if steps.len() > 0 {
        lemma_steps_keep_unique(l, steps.drop_last());
        let prev = after_steps(l, steps.drop_last());
        if steps.last().0 {
            lemma_with_added_unique(prev, steps.last().1);
        } else {
            lemma_without_item_unique(prev, steps.last().1);
        }
    }
}

/// Adding a MIME type a second time changes nothing: the list after the
/// second add is the list after the first, and the second add reports that
/// nothing was added.
pub proof fn lemma_add_twice(l: Seq<Seq<char>>, m: Seq<char>)
    ensures
        with_added(l, m).contains(m),
        with_added(with_added(l, m), m) == with_added(l, m),
{
    if !l.contains(m) {
        assert(l.push(m)[l.len() as int] == m);
    }
}

/// Copies a list of strings.
pub(crate) fn copy_strings(v: &Vec<String>) -> (r: Vec<String>)
    ensures
        r@ == v@,
{
    let mut r: Vec<String> = Vec::new();
    let mut i: usize = 0;
    while i < v.len()
        invariant
            i <= v.len(),
            r@ == v@.subrange(0, i as int),
        decreases v.len() - i,
    {
        r.push(v[i].clone());
        assert(r@ =~= v@.subrange(0, i + 1));
        i = i + 1;
    }
    assert(r@ =~= v@);
    r
}

/// The associations of the launcher being edited.
pub struct AssociationSet {
    mime_types: Vec<String>,
    extensions: ExtensionHints,
}

impl AssociationSet {
    /// The MIME types, in the order they were added.
    pub closed spec fn types(&self) -> Seq<Seq<char>> {
        strings_view(self.mime_types@)
    }

    /// The extension recorded for each MIME type.
    pub closed spec fn extensions(&self) -> Map<Seq<char>, Seq<char>> {
        self.extensions@
    }

    /// No associations.
    pub fn new() -> (r: Self)
        ensures
            r.types() == Seq::<Seq<char>>::empty(),
            r.extensions() == Map::<Seq<char>, Seq<char>>::empty(),
    {
        let r = AssociationSet { mime_types: Vec::new(), extensions: ExtensionHints::new() };
        assert(r.types() =~= Seq::<Seq<char>>::empty());
        r
    }

    /// The associations that a launcher holds.
    pub fn from_entry(e: &DesktopEntry) -> (r: Self)
        ensures
            r.types() == strings_view(e.mime_types@),
            r.extensions() == e.mime_extensions@,
    {
        AssociationSet {
            mime_types: copy_strings(&e.mime_types),
            extensions: e.mime_extensions.duplicate(),
        }
    }

    /// Writes the associations into a launcher; its other fields stay.
    pub fn store_into(&self, e: &mut DesktopEntry)
        ensures
            strings_view(final(e).mime_types@) == self.types(),
            final(e).mime_extensions@ == self.extensions(),
            final(e).path == old(e).path,
            final(e).name == old(e).name,
            final(e).exec_command == old(e).exec_command,
            final(e).icon == old(e).icon,
            final(e).comment == old(e).comment,
            final(e).terminal == old(e).terminal,
            final(e).categories == old(e).categories,
            final(e).entry_type == old(e).entry_type,
    {
        e.mime_types = copy_strings(&self.mime_types);
        e.mime_extensions = self.extensions.duplicate();
    }

    /// The MIME types, in order.
    pub fn mime_types(&self) -> (r: &Vec<String>)
        ensures
            strings_view(r@) == self.types(),
    {
        &self.mime_types
    }

    /// Whether `mime` is associated.
    pub fn contains(&self, mime: &str) -> (r: bool)
        ensures
            r == self.types().contains(mime@),
    {
        let mut i: usize = 0;
        while i < self.mime_types.len()
            invariant
                i <= self.mime_types.len(),
                forall|k: int| 0 <= k < i ==> self.types()[k] != mime@,
            decreases self.mime_types.len() - i,
        {
            if text_equal(self.mime_types[i].as_str(), mime) {
                assert(self.types()[i as int] == mime@);
                return true;
            }
            i = i + 1;
        }
        false
    }

    /// Adds `mime` at the end unless it is associated already, and records
    /// `ext` for it when one is given. Tells whether `mime` was added.
    pub fn add(&mut self, mime: &str, ext: Option<&str>) -> (added: bool)
        ensures
            added == !old(self).types().contains(mime@),
            final(self).types() == with_added(old(self).types(), mime@),
            final(self).extensions() == match ext {
                Some(x) => if added {
                    old(self).extensions().insert(mime@, x@)
                } else {
                    old(self).extensions()
                },
                None => old(self).extensions(),
            },
    {
        if self.contains(mime) {
            return false;
        }
        let ghost before = self.types();
        self.mime_types.push(String::from_str(mime));
        assert(self.types() =~= before.push(mime@));
        match ext {
            Some(x) => self.extensions.insert(String::from_str(mime), String::from_str(x)),
            None => {},
        }
        true
    }

    /// Drops `mime` and its extension; nothing happens when it is not associated.
    pub fn remove(&mut self, mime: &str)
        ensures
            final(self).types() == without_item(old(self).types(), mime@),
            final(self).extensions() == old(self).extensions().remove(mime@),
    {
        let ghost l = self.types();
        let mut kept: Vec<String> = Vec::new();
        let mut i: usize = 0;
        assert(strings_view(kept@) =~= without_item(l.subrange(0, 0), mime@));
        while i < self.mime_types.len()
            invariant
                i <= self.mime_types.len(),
                l == strings_view(self.mime_types@),
                strings_view(kept@) == without_item(l.subrange(0, i as int), mime@),
            decreases self.mime_types.len() - i,
        {
            let ghost before = strings_view(kept@);
            proof {
                let t = l.subrange(0, i + 1);
                assert(t.drop_last() =~= l.subrange(0, i as int));
                assert(t.last() == l[i as int]);
            }
            if !text_equal(self.mime_types[i].as_str(), mime) {
                kept.push(self.mime_types[i].clone());
                assert(strings_view(kept@) =~= before.push(l[i as int]));
            }
            i = i + 1;
        }
        assert(l.subrange(0, self.mime_types.len() as int) =~= l);
        self.mime_types = kept;
        self.extensions.remove(mime);
    }

    /// The extension to show for `mime`: the one recorded here, else the one
    /// that `known` holds for it.
    pub fn shown_extension(&self, known: &ExtensionHints, mime: &str) -> (r: Option<String>)
        ensures
            r is Some <==> self.extensions().contains_key(mime@) || known@.contains_key(mime@),
            r is Some ==> r->0@ == if self.extensions().contains_key(mime@) {
                self.extensions()[mime@]
            } else {
                known@[mime@]
            },
    {
        match self.extensions.get(mime) {
            Some(x) => Some(x.clone()),
            None => match known.get(mime) {
                Some(x) => Some(x.clone()),
                None => None,
            },
        }
    }

    /// Adds `mime` with the extension `hint`, an empty hint meaning none. A
    /// given hint is used, and kept in `known` where `known` has none for
    /// `mime`. Without one, the extension this set already records for
    /// `mime` is used, else the one `known` holds for it, else none; a
    /// recorded extension is never replaced by `known`'s. Returns whether
    /// `mime` was added, and the extension used.
    pub fn add_with_hint(&mut self, known: &mut ExtensionHints, mime: &str, hint: &str) -> (r: (
        bool,
        Option<String>,
    ))
        ensures
            final(known)@ == if hint@.len() > 0 && !old(known)@.contains_key(mime@) {
                old(known)@.insert(mime@, hint@)
            } else {
                old(known)@
            },
            r.1 is Some <==> hint@.len() > 0 || old(self).extensions().contains_key(mime@)
                || old(known)@.contains_key(mime@),
            r.1 is Some ==> r.1->0@ == if hint@.len() > 0 {
                hint@
            } else if old(self).extensions().contains_key(mime@) {
                old(self).extensions()[mime@]
            } else {
                old(known)@[mime@]
            },
            r.0 == !old(self).types().contains(mime@),
            final(self).types() == with_added(old(self).types(), mime@),
            final(self).extensions() == if r.0 && r.1 is Some {
                old(self).extensions().insert(mime@, r.1->0@)
            } else {
                old(self).extensions()
            },
            hint@.len() == 0 ==> final(self).extensions() == if !old(self).extensions().contains_key(
                mime@,
            ) && r.0 && r.1 is Some {
                old(self).extensions().insert(mime@, r.1->0@)
            } else {
                old(self).extensions()
            },
    {
        let resolved: Option<String> = if hint.unicode_len() > 0 {
            known.insert_if_absent(mime, hint);
            Some(String::from_str(hint))
        } else {
            match self.extensions.get(mime) {
                Some(x) => Some(x.clone()),
                None => match known.get(mime) {
                    Some(x) => Some(x.clone()),
                    None => None,
                },
            }
        };
        let ghost before = self.extensions();
        let added = match &resolved {
            Some(x) => self.add(mime, Some(x.as_str())),
            None => self.add(mime, None),
        };
        proof {
            if hint@.len() == 0 && before.contains_key(mime@) && added {
                assert(before.insert(mime@, before[mime@]) =~= before);
            }
        }
        (added, resolved)
    }
}

/// The text of the extension column: the extension, or `—` when there is none.
pub fn extension_label(ext: Option<&str>) -> (r: String)
    ensures
        r@ == match ext {
            Some(x) => if x@.len() > 0 {
                x@
            } else {
                "\u{2014}"@
            },
            None => "\u{2014}"@,
        },
{
    match ext {
        Some(x) => if x.unicode_len() > 0 {
            String::from_str(x)
        } else {
            String::from_str("\u{2014}")
        },
        None => String::from_str("\u{2014}"),
    }
}

} // verus!
