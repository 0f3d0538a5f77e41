//! The index of the shared MIME-info glob database: which MIME type each
//! file extension stands for, ranked by the weights that the database gives.
use vstd::prelude::*;
use crate::codec::{find_char, index_of, pairs_view};
use crate::hints::{hint_lookup, keys_ascending, lemma_lookup_absent, lemma_lookup_at, pairs_map, ExtensionHints};
use crate::text::{contains_seq, contains_text, lower_of, lowercase, seq_lt, split_on, split_text, trim_text, trimmed};

verus! {

/// A character that makes a glob pattern more than a plain suffix.
pub open spec fn is_glob_special(c: char) -> bool {
    c == '*' || c == '?' || c == '[' || c == ']' || c == '!'
}

/// The suffix of a pattern of the form `*.` followed by a non-empty suffix
/// without `* ? [ ] !`.
pub open spec fn pattern_suffix(p: Seq<char>) -> Option<Seq<char>> {
    if p.len() > 2 && p[0] == '*' && p[1] == '.' && (forall|i: int| 2 <= i < p.len() ==> !is_glob_special(#[trigger] p[i])) {
        Some(p.subrange(2, p.len() as int))
    } else {
        None
    }
}

/// The extension that a glob pattern stands for: its suffix, lowercased.
pub fn extract_extension_from_pattern(pattern: &str) -> (r: Option<String>)
    ensures
        match pattern_suffix(pattern@) {
            Some(x) => r is Some && r->0@ == lower_of(x),
            None => r is None,
        },
{
    let n = pattern.unicode_len();
    if n <= 2 || pattern.get_char(0) != '*' || pattern.get_char(1) != '.' {
        return None;
    }
    let mut i: usize = 2;
    while i < n
        invariant
            n == pattern@.len(),
            2 <= i <= n,
            forall|k: int| 2 <= k < i ==> !is_glob_special(#[trigger] pattern@[k]),
        decreases n - i,
    {
        let c = pattern.get_char(i);
        if c == '*' || c == '?' || c == '[' || c == ']' || c == '!' {
            assert(is_glob_special(pattern@[i as int]));
            return None;
        }
        i = i + 1;
    }
    Some(lowercase(pattern.substring_char(2, n)))
}

/// The value of a string of decimal digits.
pub open spec fn digits_value(s: Seq<char>) -> int
    decreases s.len(),
{
    if s.len() == 0 {
        0
    } else {
        digits_value(s.drop_last()) * 10 + ((s.last() as u32) as int - 48)
    }
}

/// Whether every character is an ASCII digit.
pub open spec fn all_digits(s: Seq<char>) -> bool {
    forall|i: int| 0 <= i < s.len() ==> '0' <= #[trigger] s[i] && s[i] <= '9'
}

/// The weight that a glob line's first field gives: the number that
/// `str::parse::<u32>` reads from it (an optional `+`, then at least one
/// digit, at most `u32::MAX`), and `0` for anything else.
pub open spec fn weight_of(s: Seq<char>) -> u32 {
    let d = if s.len() > 0 && s[0] == '+' {
        s.drop_first()
    } else {
        s
    };
    if d.len() > 0 && all_digits(d) && digits_value(d) <= u32::MAX {
        digits_value(d) as u32
    } else {
        0
    }
}

proof fn lemma_digits_value_nonneg(t: Seq<char>)
    requires
        all_digits(t),
    ensures
        digits_value(t) >= 0,
    decreases t.len(),
{
    if t.len() > 0 {
        assert(all_digits(t.drop_last())) by {
            assert forall|k: int| 0 <= k < t.drop_last().len() implies '0' <= #[trigger] t.drop_last()[k] && t.drop_last()[k] <= '9' by {
                assert(t.drop_last()[k] == t[k]);
            }
        }
        lemma_digits_value_nonneg(t.drop_last());
        assert('0' <= t[t.len() - 1]);
    }
}

proof fn lemma_digits_value_grows(s: Seq<char>, i: int, j: int)
    requires
        0 <= i <= j <= s.len(),
        all_digits(s),
    ensures
        digits_value(s.subrange(0, i)) <= digits_value(s.subrange(0, j)),
    decreases j,
{
    if j > i {
        lemma_digits_value_grows(s, i, j - 1);
        let p = s.subrange(0, j - 1);
        assert(s.subrange(0, j).drop_last() =~= p);
        assert(s.subrange(0, j).last() == s[j - 1]);
        assert(all_digits(p)) by {
            assert forall|k: int| 0 <= k < p.len() implies '0' <= #[trigger] p[k] && p[k] <= '9' by {
                assert(p[k] == s[k]);
            }
        }
        lemma_digits_value_nonneg(p);
        assert('0' <= s[j - 1]);
    }
}

/// Reads a weight field.
pub fn parse_weight(s: &str) -> (r: u32)
    ensures
        r == weight_of(s@),
{
    let n = s.unicode_len();
    let start: usize = if n > 0 && s.get_char(0) == '+' { 1 } else { 0 };
    let d = s.substring_char(start, n);
    let ghost dd = if s@.len() > 0 && s@[0] == '+' {
        s@.drop_first()
    } else {
        s@
    };
    proof {
        if start == 1 {
            assert(d@ =~= s@.drop_first());
        } else {
            assert(d@ =~= s@);
        }
        assert(d@ == dd);
    }
    let m = d.unicode_len();
    if m == 0 {
        return 0;
    }
    let mut value: u64 = 0;
    let mut i: usize = 0;
    while i < m
        invariant
            m == d@.len(),
            d@ == dd,
            dd == (if s@.len() > 0 && s@[0] == '+' {
                s@.drop_first()
            } else {
                s@
            }),
            i <= m,
            forall|k: int| 0 <= k < i ==> '0' <= #[trigger] d@[k] && d@[k] <= '9',
            value == digits_value(d@.subrange(0, i as int)),
            value <= u32::MAX,
        decreases m - i,
    {
        let c = d.get_char(i);
        if c < '0' || c > '9' {
            assert(!all_digits(dd));
            assert(weight_of(s@) == 0);
            return 0;
        }
        proof {
            assert(d@.subrange(0, i + 1).drop_last() =~= d@.subrange(0, i as int));
            assert(d@.subrange(0, i + 1).last() == c);
        }
        let digit = (c as u32 - 48) as u64;
        value = value * 10 + digit;
        if value > 4294967295 {
            proof {
                assert(value == digits_value(d@.subrange(0, i + 1)));
                if all_digits(dd) {
                    lemma_digits_value_grows(d@, i + 1, m as int);
                    assert(d@.subrange(0, m as int) =~= d@);
                }
                assert(weight_of(s@) == 0);
            }
            return 0;
        }
        i = i + 1;
    }
    assert(d@.subrange(0, m as int) =~= d@);
    assert(all_digits(dd));
    value as u32
}

/// What one line of a glob database gives, if anything: `(extension, MIME type, weight)`.
/// The trimmed line is skipped when empty or a `#` comment; it splits into at
/// most three fields at `:`; the MIME type and the pattern are trimmed and
/// must be non-empty, and the pattern must stand for an extension.
pub open spec fn glob_line_record(line: Seq<char>) -> Option<(Seq<char>, Seq<char>, u32)> {
    let t = trimmed(line);
    let i1 = index_of(t, ':');
    let rest = t.subrange(i1 + 1, t.len() as int);
    let i2 = index_of(rest, ':');
    let mime = trimmed(if i2 < 0 { rest } else { rest.subrange(0, i2) });
    let pattern = if i2 < 0 { Seq::empty() } else { trimmed(rest.subrange(i2 + 1, rest.len() as int)) };
    if t.len() == 0 || t[0] == '#' || i1 < 0 || mime.len() == 0 || pattern.len() == 0 {
        None
    } else {
        match pattern_suffix(pattern) {
            Some(x) => Some((lower_of(x), mime, weight_of(t.subrange(0, i1)))),
            None => None,
        }
    }
}

proof fn lemma_index_of_range(s: Seq<char>, c: char)
    ensures
        -1 <= index_of(s, c) < s.len(),
    decreases s.len(),
{
    if s.len() > 0 {
        lemma_index_of_range(s.drop_first(), c);
    }
}

/// Reads one line of a glob database.
pub fn parse_glob_line(line: &str) -> (r: Option<(String, String, u32)>)
    ensures
        match glob_line_record(line@) {
            Some(g) => match r {
                Some(x) => x.0@ == g.0 && x.1@ == g.1 && x.2 == g.2,
                None => false,
            },
            None => r is None,
        },
{
    let t = trim_text(line);
    let n = t.unicode_len();
    if n == 0 || t.get_char(0) == '#' {
        return None;
    }
    let i1 = match find_char(t, ':') {
        Some(i) => i,
        None => return None,
    };
    proof {
        lemma_index_of_range(t@, ':');
    }
    let rest = t.substring_char(i1 + 1, n);
    let mime;
    let pattern;
    match find_char(rest, ':') {
        Some(i2) => {
            proof {
                lemma_index_of_range(rest@, ':');
            }
            mime = trim_text(rest.substring_char(0, i2));
            pattern = trim_text(rest.substring_char(i2 + 1, rest.unicode_len()));
        },
        None => {
            mime = trim_text(rest);
            pattern = "";
            proof {
                reveal_strlit("");
            }
        },
    }
    if mime.unicode_len() == 0 || pattern.unicode_len() == 0 {
        return None;
    }
    match extract_extension_from_pattern(pattern) {
        Some(ext) => {
            let weight = parse_weight(t.substring_char(0, i1));
            Some((ext, String::from_str(mime), weight))
        },
        None => None,
    }
}

/// The MIME type and weight of the last record for `ext`.
pub open spec fn last_record(s: Seq<(Seq<char>, Seq<char>, u32)>, ext: Seq<char>) -> Option<(Seq<char>, u32)>
    decreases s.len(),
{
    if s.len() == 0 {
        None
    } else if s.last().0 == ext {
        Some((s.last().1, s.last().2))
    } else {
        last_record(s.drop_last(), ext)
    }
}

/// The map after a record for `ext` is read: it takes the extension unless a
/// record of larger weight holds it.
pub open spec fn ranked_insert(
    m: Map<Seq<char>, (Seq<char>, u32)>,
    ext: Seq<char>,
    mime: Seq<char>,
    weight: u32,
) -> Map<Seq<char>, (Seq<char>, u32)> {
    if m.contains_key(ext) && weight < m[ext].1 {
        m
    } else {
        m.insert(ext, (mime, weight))
    }
}

/// The index after reading the lines in order, each as `add_line` reads it.
pub open spec fn after_lines(
    m: Map<Seq<char>, (Seq<char>, u32)>,
    lines: Seq<Seq<char>>,
) -> Map<Seq<char>, (Seq<char>, u32)>
    decreases lines.len(),
{
    if lines.len() == 0 {
        m
    } else {
        match glob_line_record(lines.last()) {
            Some(g) => ranked_insert(after_lines(m, lines.drop_last()), g.0, g.1, g.2),
            None => after_lines(m, lines.drop_last()),
        }
    }
}

/// For each extension, the MIME type that decides it and its weight.
pub struct GlobIndex {
    records: Vec<(String, String, u32)>,
}

spec fn records_view(v: Seq<(String, String, u32)>) -> Seq<(Seq<char>, Seq<char>, u32)> {
    v.map_values(|r: (String, String, u32)| (r.0@, r.1@, r.2))
}

spec fn ext_mime_pairs(s: Seq<(Seq<char>, Seq<char>, u32)>) -> Seq<(Seq<char>, Seq<char>)> {
    s.map_values(|r: (Seq<char>, Seq<char>, u32)| (r.0, r.1))
}

proof fn lemma_last_record_pairs(s: Seq<(Seq<char>, Seq<char>, u32)>, ext: Seq<char>)
    ensures
        hint_lookup(ext_mime_pairs(s), ext) == match last_record(s, ext) {
            Some(r) => Some(r.0),
            None => None::<Seq<char>>,
        },
    decreases s.len(),
{
    if s.len() > 0 {
        assert(ext_mime_pairs(s).drop_last() =~= ext_mime_pairs(s.drop_last()));
        lemma_last_record_pairs(s.drop_last(), ext);
    }
}

impl View for GlobIndex {
    type V = Map<Seq<char>, (Seq<char>, u32)>;

    closed spec fn view(&self) -> Map<Seq<char>, (Seq<char>, u32)> {
        let s = records_view(self.records@);
        Map::new(|e: Seq<char>| last_record(s, e) is Some, |e: Seq<char>| last_record(s, e)->0)
    }
}

/// One entry of the list of known file types.
pub struct MimeChoice {
    /// The extension with a leading `.`.
    pub extension: String,
    pub mime_type: String,
    pub description: String,
}

impl GlobIndex {
    /// An empty index.
    pub fn new() -> (r: Self)
        ensures
            r@ == Map::<Seq<char>, (Seq<char>, u32)>::empty(),
    {
        let r = GlobIndex { records: Vec::new() };
        assert(r@ =~= Map::<Seq<char>, (Seq<char>, u32)>::empty());
        r
    }

    /// The MIME type and weight that decide `ext`.
    pub fn lookup(&self, ext: &str) -> (r: Option<(&String, u32)>)
        ensures
            match r {
                Some(p) => self@.contains_key(ext@) && self@[ext@] == (p.0@, p.1),
                None => !self@.contains_key(ext@),
            },
    {
        let ghost s = records_view(self.records@);
        let mut i: usize = self.records.len();
        assert(s.subrange(0, s.len() as int) =~= s);
        while i > 0
            invariant
                i <= self.records.len(),
                s == records_view(self.records@),
                last_record(s, ext@) == last_record(s.subrange(0, i as int), ext@),
            decreases i,
        {
            proof {
                assert(s.subrange(0, i as int).drop_last() =~= s.subrange(0, i - 1));
            }
            if crate::text::text_equal(self.records[i - 1].0.as_str(), ext) {
                return Some((&self.records[i - 1].1, self.records[i - 1].2));
            }
            i = i - 1;
        }
        None
    }

    /// Reads one record of the database.
    pub fn record(&mut self, ext: String, mime: String, weight: u32)
        ensures
            final(self)@ == ranked_insert(old(self)@, ext@, mime@, weight),
    {
        let keep = match self.lookup(ext.as_str()) {
            Some(cur) => weight >= cur.1,
            None => true,
        };
        if keep {
            let ghost before = records_view(self.records@);
            self.records.push((ext, mime, weight));
            proof {
                let s = records_view(self.records@);
                assert(s =~= before.push((ext@, mime@, weight)));
                assert(s.drop_last() =~= before);
                assert(self@ =~= old(self)@.insert(ext@, (mime@, weight)));
            }
        }
    }

    /// Reads one line of a glob database; a line that gives no record changes nothing.
    pub fn add_line(&mut self, line: &str)
        ensures
            final(self)@ == match glob_line_record(line@) {
                Some(g) => ranked_insert(old(self)@, g.0, g.1, g.2),
                None => old(self)@,
            },
    {
        match parse_glob_line(line) {
            Some(g) => self.record(g.0, g.1, g.2),
            None => {},
        }
    }

    /// Reads a whole glob database: its lines, split at `\n`, in order.
    pub fn add_database_text(&mut self, text: &str)
        ensures
            final(self)@ == after_lines(old(self)@, split_on(text@, '\n')),
    {
        let lines = split_text(text, '\n');
        let ghost ls = lines@.map_values(|x: &str| x@);
        let ghost start = self@;
        let mut i: usize = 0;
        assert(ls.subrange(0, 0) =~= Seq::<Seq<char>>::empty());
        while i < lines.len()
            invariant
                i <= lines.len(),
                ls == lines@.map_values(|x: &str| x@),
                self@ == after_lines(start, ls.subrange(0, i as int)),
            decreases lines.len() - i,
        {
            proof {
                assert(ls.subrange(0, i + 1).drop_last() =~= ls.subrange(0, i as int));
                assert(ls.subrange(0, i + 1).last() == lines@[i as int]@);
            }
            self.add_line(lines[i]);
            i = i + 1;
        }
        assert(ls.subrange(0, lines.len() as int) =~= ls);
    }

    /// The known file types, one per extension, in ascending order of
    /// extension; each description is the MIME type itself.
    pub fn choices(&self) -> (r: Vec<MimeChoice>)
        ensures
            forall|i: int| 0 <= i < r@.len() ==> (#[trigger] r@[i]).extension@.len() > 0 && r@[i].extension@[0] == '.'
                && self@.contains_key(r@[i].extension@.drop_first())
                && self@[r@[i].extension@.drop_first()].0 == r@[i].mime_type@
                && r@[i].description@ == r@[i].mime_type@,
            forall|e: Seq<char>| #[trigger] self@.contains_key(e) ==> exists|i: int| 0 <= i < r@.len() && r@[i].extension@ == seq!['.'] + e,
            forall|i: int, j: int| 0 <= i < j < r@.len() ==> seq_lt(#[trigger] r@[i].extension@.drop_first(), #[trigger] r@[j].extension@.drop_first()),
    {
        let ghost s = records_view(self.records@);
        let mut pairs: Vec<(String, String)> = Vec::new();
        let mut k: usize = 0;
        while k < self.records.len()
            invariant
                k <= self.records.len(),
                s == records_view(self.records@),
                pairs_view(pairs@) == ext_mime_pairs(s.subrange(0, k as int)),
            decreases self.records.len() - k,
        {
            let ghost before = pairs_view(pairs@);
            pairs.push((self.records[k].0.clone(), self.records[k].1.clone()));
            proof {
                assert(pairs_view(pairs@) =~= before.push((s[k as int].0, s[k as int].1)));
                assert(s.subrange(0, k + 1) =~= s.subrange(0, k as int).push(s[k as int]));
                assert(ext_mime_pairs(s.subrange(0, k + 1)) =~= ext_mime_pairs(s.subrange(0, k as int)).push((s[k as int].0, s[k as int].1)));
            }
            k = k + 1;
        }
        proof {
            assert(s.subrange(0, self.records.len() as int) =~= s);
        }
        let by_ext = ExtensionHints::from_pairs(&pairs);
        let sorted = by_ext.pairs();
        let ghost es = pairs_view(sorted@);
        proof {
            reveal_strlit(".");
        }
        let mut r: Vec<MimeChoice> = Vec::new();
        let mut i: usize = 0;
        while i < sorted.len()
            invariant
                i <= sorted.len(),
                es == pairs_view(sorted@),
                keys_ascending(es),
                by_ext@ == pairs_map(es),
                "."@ == seq!['.'],
                r@.len() == i,
                by_ext@ == pairs_map(ext_mime_pairs(s)),
                s == records_view(self.records@),
                forall|j: int| 0 <= j < i ==> (#[trigger] r@[j]).extension@ == seq!['.'] + es[j].0
                    && r@[j].mime_type@ == es[j].1 && r@[j].description@ == es[j].1,
            decreases sorted.len() - i,
        {
            let mut extension = String::from_str(".");
            extension.append(sorted[i].0.as_str());
            r.push(MimeChoice {
                extension,
                mime_type: sorted[i].1.clone(),
                description: sorted[i].1.clone(),
            });
            i = i + 1;
        }
        proof {
            lemma_choices_cover(self, es, r@);
        }
        r
    }
}

proof fn lemma_choice_at(idx: &GlobIndex, es: Seq<(Seq<char>, Seq<char>)>, r: Seq<MimeChoice>, j: int)
    requires
        keys_ascending(es),
        pairs_map(es) == pairs_map(ext_mime_pairs(records_view(idx.records@))),
        r.len() == es.len(),
        0 <= j < r.len(),
        r[j].extension@ == seq!['.'] + es[j].0,
        r[j].mime_type@ == es[j].1,
        r[j].description@ == es[j].1,
    ensures
        r[j].extension@.len() > 0 && r[j].extension@[0] == '.'
            && idx@.contains_key(r[j].extension@.drop_first())
            && idx@[r[j].extension@.drop_first()].0 == r[j].mime_type@
            && r[j].description@ == r[j].mime_type@,
{
    let s = records_view(idx.records@);
    let k = es[j].0;
    assert((seq!['.'] + k).drop_first() =~= k);
    assert((seq!['.'] + k)[0] == '.');
    lemma_lookup_at(es, j);
    assert(pairs_map(es).contains_key(k));
    assert(pairs_map(es)[k] == es[j].1);
    let m2 = pairs_map(ext_mime_pairs(s));
    assert(m2.contains_key(k) && m2[k] == es[j].1);
    lemma_last_record_pairs(s, k);
    let lr = last_record(s, k);
    assert(lr is Some);
    assert((lr->0).0 == es[j].1);
    assert(idx@.contains_key(k));
    assert(idx@[k] == lr->0);
}

proof fn lemma_choices_cover(idx: &GlobIndex, es: Seq<(Seq<char>, Seq<char>)>, r: Seq<MimeChoice>)
    requires
        keys_ascending(es),
        pairs_map(es) == pairs_map(ext_mime_pairs(records_view(idx.records@))),
        r.len() == es.len(),
        forall|j: int| 0 <= j < es.len() ==> (#[trigger] r[j]).extension@ == seq!['.'] + es[j].0
            && r[j].mime_type@ == es[j].1 && r[j].description@ == es[j].1,
    ensures
        forall|i: int| 0 <= i < r.len() ==> (#[trigger] r[i]).extension@.len() > 0 && r[i].extension@[0] == '.'
            && idx@.contains_key(r[i].extension@.drop_first())
            && idx@[r[i].extension@.drop_first()].0 == r[i].mime_type@
            && r[i].description@ == r[i].mime_type@,
        forall|e: Seq<char>| #[trigger] idx@.contains_key(e) ==> exists|i: int| 0 <= i < r.len() && r[i].extension@ == seq!['.'] + e,
        forall|i: int, j: int| 0 <= i < j < r.len() ==> seq_lt(#[trigger] r[i].extension@.drop_first(), #[trigger] r[j].extension@.drop_first()),
{
    let s = records_view(idx.records@);
    assert forall|j: int| 0 <= j < r.len() implies (#[trigger] r[j]).extension@.len() > 0 && r[j].extension@[0] == '.'
        && idx@.contains_key(r[j].extension@.drop_first())
        && idx@[r[j].extension@.drop_first()].0 == r[j].mime_type@
        && r[j].description@ == r[j].mime_type@ by {
        lemma_choice_at(idx, es, r, j);
    }
    assert forall|e: Seq<char>| #[trigger] idx@.contains_key(e) implies exists|i: int| 0 <= i < r.len() && r[i].extension@ == seq!['.'] + e by {
        lemma_last_record_pairs(s, e);
        assert(pairs_map(ext_mime_pairs(s)).contains_key(e));
        if !exists|j: int| 0 <= j < es.len() && es[j].0 == e {
            assert forall|j: int| 0 <= j < es.len() implies (#[trigger] es[j]).0 != e by {}
            lemma_lookup_absent(es, e);
        }
        let j = choose|j: int| 0 <= j < es.len() && es[j].0 == e;
        assert(r[j].extension@ == seq!['.'] + e);
    }
    assert forall|a: int, b: int| 0 <= a < b < r.len() implies seq_lt(#[trigger] r[a].extension@.drop_first(), #[trigger] r[b].extension@.drop_first()) by {
        assert(r[a].extension@.drop_first() =~= es[a].0);
        assert(r[b].extension@.drop_first() =~= es[b].0);
    }
}

/// For each MIME type, the extension of the first choice that has it.
pub open spec fn first_extensions(cs: Seq<(Seq<char>, Seq<char>)>) -> Map<Seq<char>, Seq<char>>
    decreases cs.len(),
{
    if cs.len() == 0 {
        Map::empty()
    } else if first_extensions(cs.drop_last()).contains_key(cs.last().0) {
        first_extensions(cs.drop_last())
    } else {
        first_extensions(cs.drop_last()).insert(cs.last().0, cs.last().1)
    }
}

/// The `(MIME type, extension)` of each choice.
pub open spec fn choice_pairs(cs: Seq<MimeChoice>) -> Seq<(Seq<char>, Seq<char>)> {
    cs.map_values(|c: MimeChoice| (c.mime_type@, c.extension@))
}

/// Maps each MIME type to the extension of the first choice that has it.
pub fn build_mime_extension_map(choices: &Vec<MimeChoice>) -> (r: ExtensionHints)
    ensures
        r@ == first_extensions(choice_pairs(choices@)),
{
    let ghost cs = choice_pairs(choices@);
    let mut r = ExtensionHints::new();
    let mut i: usize = 0;
    assert(first_extensions(cs.subrange(0, 0)) =~= Map::<Seq<char>, Seq<char>>::empty());
    while i < choices.len()
        invariant
            i <= choices.len(),
            cs == choice_pairs(choices@),
            r@ == first_extensions(cs.subrange(0, i as int)),
        decreases choices.len() - i,
    {
        proof {
            assert(cs.subrange(0, i + 1).drop_last() =~= cs.subrange(0, i as int));
            assert(cs.subrange(0, i + 1).last() == cs[i as int]);
        }
        r.insert_if_absent(choices[i].mime_type.as_str(), choices[i].extension.as_str());
        i = i + 1;
    }
    assert(cs.subrange(0, choices.len() as int) =~= cs);
    r
}

/// What to show for a MIME type: the description found for it when there is
/// a non-empty one, else the MIME type itself.
pub fn mime_description(mime: &str, found: Option<&str>) -> (r: String)
    ensures
        r@ == match found {
            Some(d) => if d@.len() > 0 {
                d@
            } else {
                mime@
            },
            None => mime@,
        },
{
    match found {
        Some(d) => if d.unicode_len() > 0 {
            String::from_str(d)
        } else {
            String::from_str(mime)
        },
        None => String::from_str(mime),
    }
}

impl MimeChoice {
    /// Whether the choice matches a query that is already lowercase: an empty
    /// query matches everything, else the query must occur in the lowercased
    /// extension, description or MIME type.
    pub fn matches_query(&self, query: &str) -> (r: bool)
        ensures
            r == (query@.len() == 0 || contains_seq(lower_of(self.extension@), query@)
                || contains_seq(lower_of(self.description@), query@)
                || contains_seq(lower_of(self.mime_type@), query@)),
    {
        if query.unicode_len() == 0 {
            return true;
        }
        let ext = lowercase(self.extension.as_str());
        let desc = lowercase(self.description.as_str());
        let mime = lowercase(self.mime_type.as_str());
        contains_text(ext.as_str(), query) || contains_text(desc.as_str(), query) || contains_text(
            mime.as_str(),
            query,
        )
    }
}

/// Of two records for the same extension, the one of larger weight decides
/// it, whichever is read first; at equal weights the one read later decides.
pub proof fn lemma_glob_ranking(
    m: Map<Seq<char>, (Seq<char>, u32)>,
    ext: Seq<char>,
    low: Seq<char>,
    low_weight: u32,
    high: Seq<char>,
    high_weight: u32,
)
    requires
        !m.contains_key(ext),
    ensures
        low_weight < high_weight ==> ranked_insert(ranked_insert(m, ext, low, low_weight), ext, high, high_weight)[ext].0 == high,
        low_weight < high_weight ==> ranked_insert(ranked_insert(m, ext, high, high_weight), ext, low, low_weight)[ext].0 == high,
        low_weight == high_weight ==> ranked_insert(ranked_insert(m, ext, low, low_weight), ext, high, high_weight)[ext].0 == high,
{
}

} // verus!
