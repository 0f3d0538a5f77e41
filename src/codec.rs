//! The two composite values of a launcher file: the `MimeType` list and the
//! extension hints, each with its encoding and its decoding.
use vstd::prelude::*;
use crate::text::{
    extend_first, lemma_split_nonempty, lemma_trim_end, lemma_trim_start, split_on, split_text,
    trim_text, trimmed, is_ws,
};

verus! {

/// The character views of a sequence of strings.
pub open spec fn strings_view(v: Seq<String>) -> Seq<Seq<char>> {
    v.map_values(|x: String| x@)
}

/// The character views of a sequence of string pairs.
pub open spec fn pairs_view(v: Seq<(String, String)>) -> Seq<(Seq<char>, Seq<char>)> {
    v.map_values(|p: (String, String)| (p.0@, p.1@))
}

/// Each item followed by `sep`: `a;b;` for `[a, b]`, nothing for `[]`.
pub open spec fn terminated(l: Seq<Seq<char>>, sep: char) -> Seq<char>
    decreases l.len(),
{
    if l.len() == 0 {
        Seq::empty()
    } else {
        terminated(l.drop_last(), sep) + l.last() + seq![sep]
    }
}

/// The items separated by `sep`: `a;b` for `[a, b]`, nothing for `[]`.
pub open spec fn joined(l: Seq<Seq<char>>, sep: char) -> Seq<char>
    decreases l.len(),
{
    if l.len() == 0 {
        Seq::empty()
    } else if l.len() == 1 {
        l[0]
    } else {
        joined(l.drop_last(), sep) + seq![sep] + l.last()
    }
}

/// The pieces trimmed, with the empty ones dropped.
pub open spec fn cleaned(ps: Seq<Seq<char>>) -> Seq<Seq<char>>
    decreases ps.len(),
{
    if ps.len() == 0 {
        Seq::empty()
    } else if trimmed(ps.last()).len() == 0 {
        cleaned(ps.drop_last())
    } else {
        cleaned(ps.drop_last()).push(trimmed(ps.last()))
    }
}

/// The MIME types that a `MimeType` value lists.
pub open spec fn mime_list_of(v: Seq<char>) -> Seq<Seq<char>> {
    cleaned(split_on(v, ';'))
}

/// The `MimeType` value that lists `l`.
pub open spec fn mime_list_text(l: Seq<Seq<char>>) -> Seq<char> {
    terminated(l, ';')
}

/// Index of the first `c` in `s`, or `-1`.
pub open spec fn index_of(s: Seq<char>, c: char) -> int
    decreases s.len(),
{
    if s.len() == 0 {
        -1
    } else if s[0] == c {
        0
    } else if index_of(s.drop_first(), c) < 0 {
        -1
    } else {
        index_of(s.drop_first(), c) + 1
    }
}

/// The `(mime, extension)` hint that one `;`-separated piece gives, if any:
/// the piece is trimmed and split at its first `=`, each side trimmed, and a
/// piece without `=` or with an empty MIME side gives none.
pub open spec fn hint_of_piece(p: Seq<char>) -> Option<(Seq<char>, Seq<char>)> {
    let t = trimmed(p);
    let i = index_of(t, '=');
    if i < 0 {
        None
    } else if trimmed(t.subrange(0, i)).len() == 0 {
        None
    } else {
        Some((trimmed(t.subrange(0, i)), trimmed(t.subrange(i + 1, t.len() as int))))
    }
}

/// The hints of the pieces, in order.
pub open spec fn hints_of_pieces(ps: Seq<Seq<char>>) -> Seq<(Seq<char>, Seq<char>)>
    decreases ps.len(),
{
    if ps.len() == 0 {
        Seq::empty()
    } else {
        match hint_of_piece(ps.last()) {
            Some(h) => hints_of_pieces(ps.drop_last()).push(h),
            None => hints_of_pieces(ps.drop_last()),
        }
    }
}

/// The hints that an extension-hint value lists, in order.
pub open spec fn hint_list_of(v: Seq<char>) -> Seq<(Seq<char>, Seq<char>)> {
    hints_of_pieces(split_on(v, ';'))
}

/// `mime=extension`.
pub open spec fn hint_piece(h: (Seq<char>, Seq<char>)) -> Seq<char> {
    h.0 + seq!['='] + h.1
}

/// The extension-hint value that lists `hs`: the pieces `mime=extension`, joined by `;`.
pub open spec fn hint_list_text(hs: Seq<(Seq<char>, Seq<char>)>) -> Seq<char> {
    joined(hs.map_values(|h: (Seq<char>, Seq<char>)| hint_piece(h)), ';')
}

/// Writes `list` as a `MimeType` value.
pub fn encode_mime_list(list: &Vec<String>) -> (r: String)
    ensures
        r@ == mime_list_text(strings_view(list@)),
{
    let mut r = String::new();
    let mut i: usize = 0;
    proof {
        reveal_strlit(";");
        assert(strings_view(list@).subrange(0, 0) =~= Seq::<Seq<char>>::empty());
    }
    while i < list.len()
        invariant
            i <= list.len(),
            r@ == terminated(strings_view(list@).subrange(0, i as int), ';'),
            ";"@ == seq![';'],
        decreases list.len() - i,
    {
        r.append(list[i].as_str());
        r.append(";");
        proof {
            let l = strings_view(list@).subrange(0, i + 1);
            assert(l.drop_last() =~= strings_view(list@).subrange(0, i as int));
        }
        i = i + 1;
    }
    proof {
        assert(strings_view(list@).subrange(0, list.len() as int) =~= strings_view(list@));
    }
    r
}

/// Reads a `MimeType` value: split at `;`, each piece trimmed, empty pieces dropped.
pub fn parse_mime_list(value: &str) -> (r: Vec<String>)
    ensures
        strings_view(r@) == mime_list_of(value@),
{
    let pieces = split_text(value, ';');
    let ghost ps = pieces@.map_values(|x: &str| x@);
    let mut r: Vec<String> = Vec::new();
    let mut i: usize = 0;
    proof {
        assert(ps.subrange(0, 0) =~= Seq::<Seq<char>>::empty());
        assert(strings_view(r@) =~= Seq::<Seq<char>>::empty());
    }
    while i < pieces.len()
        invariant
            i <= pieces.len(),
            ps == pieces@.map_values(|x: &str| x@),
            strings_view(r@) == cleaned(ps.subrange(0, i as int)),
        decreases pieces.len() - i,
    {
        let t = trim_text(pieces[i]);
        proof {
            assert(ps.subrange(0, i + 1).drop_last() =~= ps.subrange(0, i as int));
            assert(ps.subrange(0, i + 1).last() == pieces@[i as int]@);
        }
        if t.unicode_len() > 0 {
            let ghost before = strings_view(r@);
            r.push(String::from_str(t));
            proof {
                assert(strings_view(r@) =~= before.push(t@));
            }
        }
        i = i + 1;
    }
    proof {
        assert(ps.subrange(0, pieces.len() as int) =~= ps);
    }
    r
}

proof fn lemma_index_of_found(s: Seq<char>, c: char, i: int)
    requires
        0 <= i < s.len(),
        s[i] == c,
        forall|k: int| 0 <= k < i ==> s[k] != c,
    ensures
        index_of(s, c) == i,
    decreases i,
{
    if i > 0 {
        lemma_index_of_found(s.drop_first(), c, i - 1);
    }
}

proof fn lemma_index_of_absent(s: Seq<char>, c: char)
    requires
        forall|k: int| 0 <= k < s.len() ==> s[k] != c,
    ensures
        index_of(s, c) == -1,
    decreases s.len(),
{
    if s.len() > 0 {
        lemma_index_of_absent(s.drop_first(), c);
    }
}

/// Position of the first `c` in `s`.
pub fn find_char(s: &str, c: char) -> (r: Option<usize>)
    ensures
        match r {
            Some(i) => i == index_of(s@, c),
            None => index_of(s@, c) == -1,
        },
{
    let n = s.unicode_len();
    let mut i: usize = 0;
    while i < n
        invariant
            n == s@.len(),
            i <= n,
            forall|k: int| 0 <= k < i ==> s@[k] != c,
        decreases n - i,
    {
        if s.get_char(i) == c {
            proof {
                lemma_index_of_found(s@, c, i as int);
            }
            return Some(i);
        }
        i = i + 1;
    }
    proof {
        lemma_index_of_absent(s@, c);
    }
    None
}

/// The hint that one piece of an extension-hint value gives.
fn hint_from_piece(piece: &str) -> (r: Option<(String, String)>)
    ensures
        match r {
            Some(p) => hint_of_piece(piece@) == Some((p.0@, p.1@)),
            None => hint_of_piece(piece@) is None,
        },
{
    let t = trim_text(piece);
    match find_char(t, '=') {
        None => None,
        Some(i) => {
            proof {
                lemma_index_of_bound(t@, '=');
            }
            let mime = trim_text(t.substring_char(0, i));
            if mime.unicode_len() == 0 {
                None
            } else {
                let n = t.unicode_len();
                let ext = trim_text(t.substring_char(i + 1, n));
                Some((String::from_str(mime), String::from_str(ext)))
            }
        },
    }
}

proof fn lemma_index_of_bound(s: Seq<char>, c: char)
    ensures
        -1 <= index_of(s, c) < s.len(),
        index_of(s, c) >= 0 ==> s[index_of(s, c)] == c,
    decreases s.len(),
{
    if s.len() > 0 {
        lemma_index_of_bound(s.drop_first(), c);
    }
}

/// Reads an extension-hint value into its `(mime, extension)` pairs, in order.
pub fn parse_hint_list(value: &str) -> (r: Vec<(String, String)>)
    ensures
        pairs_view(r@) == hint_list_of(value@),
{
    let pieces = split_text(value, ';');
    let ghost ps = pieces@.map_values(|x: &str| x@);
    let mut r: Vec<(String, String)> = Vec::new();
    let mut i: usize = 0;
    proof {
        assert(ps.subrange(0, 0) =~= Seq::<Seq<char>>::empty());
        assert(pairs_view(r@) =~= Seq::<(Seq<char>, Seq<char>)>::empty());
    }
    while i < pieces.len()
        invariant
            i <= pieces.len(),
            ps == pieces@.map_values(|x: &str| x@),
            pairs_view(r@) == hints_of_pieces(ps.subrange(0, i as int)),
        decreases pieces.len() - i,
    {
        let h = hint_from_piece(pieces[i]);
        proof {
            assert(ps.subrange(0, i + 1).drop_last() =~= ps.subrange(0, i as int));
            assert(ps.subrange(0, i + 1).last() == pieces@[i as int]@);
        }
        match h {
            Some(p) => {
                let ghost before = pairs_view(r@);
                let ghost pv = (p.0@, p.1@);
                r.push(p);
                proof {
                    assert(pairs_view(r@) =~= before.push(pv));
                }
            },
            None => {},
        }
        i = i + 1;
    }
    proof {
        assert(ps.subrange(0, pieces.len() as int) =~= ps);
    }
    r
}

/// Writes `pairs` as an extension-hint value, in the order given.
pub fn encode_hint_list(pairs: &Vec<(String, String)>) -> (r: String)
    ensures
        r@ == hint_list_text(pairs_view(pairs@)),
{
    let ghost pieces = pairs_view(pairs@).map_values(|h: (Seq<char>, Seq<char>)| hint_piece(h));
    let mut r = String::new();
    let mut i: usize = 0;
    proof {
        reveal_strlit(";");
        reveal_strlit("=");
        assert(pieces.subrange(0, 0) =~= Seq::<Seq<char>>::empty());
    }
    while i < pairs.len()
        invariant
            i <= pairs.len(),
            pieces == pairs_view(pairs@).map_values(|h: (Seq<char>, Seq<char>)| hint_piece(h)),
            r@ == joined(pieces.subrange(0, i as int), ';'),
            ";"@ == seq![';'],
            "="@ == seq!['='],
        decreases pairs.len() - i,
    {
        let ghost before = r@;
        if i > 0 {
            r.append(";");
        }
        r.append(pairs[i].0.as_str());
        r.append("=");
        r.append(pairs[i].1.as_str());
        proof {
            let l = pieces.subrange(0, i + 1);
            assert(l.drop_last() =~= pieces.subrange(0, i as int));
            assert(l.last() == hint_piece((pairs@[i as int].0@, pairs@[i as int].1@)));
            if i == 0 {
                assert(r@ =~= l[0]);
            } else {
                assert(r@ =~= before + seq![';'] + l.last());
            }
        }
        i = i + 1;
    }
    proof {
        assert(pieces.subrange(0, pairs.len() as int) =~= pieces);
    }
    r
}

proof fn lemma_split_concat(a: Seq<char>, b: Seq<char>, sep: char)
    ensures
        split_on(a + b, sep) == split_on(a, sep).drop_last() + extend_first(
            split_on(a, sep).last(),
            split_on(b, sep),
        ),
    decreases a.len(),
{
    lemma_split_nonempty(a, sep);
    lemma_split_nonempty(b, sep);
    if a.len() == 0 {
        assert(a + b =~= b);
        assert(extend_first(Seq::empty(), split_on(b, sep)) =~= split_on(b, sep));
        assert(split_on(a, sep).drop_last() =~= Seq::<Seq<char>>::empty());
        assert(split_on(a, sep).drop_last() + split_on(b, sep) =~= split_on(b, sep));
    } else {
        let a2 = a.drop_first();
        assert((a + b).drop_first() =~= a2 + b);
        assert((a + b)[0] == a[0]);
        lemma_split_concat(a2, b, sep);
        lemma_split_nonempty(a2, sep);
        let s2 = split_on(a2, sep);
        let y = split_on(b, sep);
        let r = split_on(a2 + b, sep);
        if a[0] == sep {
            assert(split_on(a, sep) == seq![Seq::<char>::empty()] + s2);
            assert((seq![Seq::<char>::empty()] + s2).drop_last() =~= seq![Seq::<char>::empty()]
                + s2.drop_last());
            assert((seq![Seq::<char>::empty()] + s2).last() == s2.last());
            assert(seq![Seq::<char>::empty()] + r =~= (seq![Seq::<char>::empty()]
                + s2.drop_last()) + extend_first(s2.last(), y));
        } else {
            let c = a[0];
            assert(split_on(a, sep) == s2.update(0, seq![c] + s2[0]));
            assert(split_on(a + b, sep) == r.update(0, seq![c] + r[0]));
            if s2.len() == 1 {
                assert(s2.update(0, seq![c] + s2[0]).drop_last() =~= Seq::<Seq<char>>::empty());
                assert(s2.drop_last() =~= Seq::<Seq<char>>::empty());
                assert(r =~= extend_first(s2[0], y));
                assert(seq![c] + (s2[0] + y[0]) =~= (seq![c] + s2[0]) + y[0]);
                assert(r.update(0, seq![c] + r[0]) =~= Seq::<Seq<char>>::empty() + extend_first(
                    seq![c] + s2[0],
                    y,
                ));
            } else {
                assert(s2.update(0, seq![c] + s2[0]).drop_last() =~= s2.drop_last().update(
                    0,
                    seq![c] + s2[0],
                ));
                assert(s2.update(0, seq![c] + s2[0]).last() == s2.last());
                assert(r[0] == s2[0]);
                assert(r.update(0, seq![c] + r[0]) =~= s2.drop_last().update(0, seq![c] + s2[0])
                    + extend_first(s2.last(), y));
            }
        }
    }
}

proof fn lemma_split_without_sep(x: Seq<char>, sep: char)
    requires
        !x.contains(sep),
    ensures
        split_on(x, sep) == seq![x],
    decreases x.len(),
{
    if x.len() == 0 {
        assert(x =~= Seq::<char>::empty());
        assert(split_on(x, sep) =~= seq![x]);
    } else {
        assert(!x.drop_first().contains(sep)) by {
            if x.drop_first().contains(sep) {
                let k = choose|k: int| 0 <= k < x.drop_first().len() && x.drop_first()[k] == sep;
                assert(x[k + 1] == sep);
            }
        }
        lemma_split_without_sep(x.drop_first(), sep);
        assert(x[0] != sep) by {
            if x[0] == sep {
                assert(x.contains(sep));
            }
        }
        assert(seq![x[0]] + x.drop_first() =~= x);
        let rest = split_on(x.drop_first(), sep);
        assert(split_on(x, sep) == rest.update(0, seq![x[0]] + rest[0]));
        assert(split_on(x, sep) =~= seq![x]);
    }
}

proof fn lemma_split_terminated(l: Seq<Seq<char>>, sep: char)
    requires
        forall|i: int| 0 <= i < l.len() ==> !(#[trigger] l[i]).contains(sep),
    ensures
        split_on(terminated(l, sep), sep) == l.push(Seq::empty()),
    decreases l.len(),
{
    if l.len() == 0 {
        assert(split_on(Seq::empty(), sep) =~= l.push(Seq::empty()));
    } else {
        let l2 = l.drop_last();
        let x = l.last();
        assert forall|i: int| 0 <= i < l2.len() implies !(#[trigger] l2[i]).contains(sep) by {
            assert(l2[i] == l[i]);
        }
        lemma_split_terminated(l2, sep);
        let t2 = terminated(l2, sep);
        assert(terminated(l, sep) =~= t2 + (x + seq![sep]));
        lemma_split_concat(t2, x + seq![sep], sep);
        lemma_split_concat(x, seq![sep], sep);
        assert(!l[l.len() - 1].contains(sep));
        lemma_split_without_sep(x, sep);
        let e = Seq::<char>::empty();
        assert(seq![sep].drop_first() =~= e);
        assert(split_on(e, sep) =~= seq![e]);
        assert(split_on(seq![sep], sep) == seq![e] + split_on(e, sep));
        assert(split_on(seq![sep], sep) =~= seq![e, e]);
        assert(split_on(x + seq![sep], sep) =~= seq![x, e]);
        assert(e + x =~= x);
        assert(l2.push(e).drop_last() =~= l2);
        assert(split_on(terminated(l, sep), sep) =~= l.push(e));
    }
}

proof fn lemma_split_joined(l: Seq<Seq<char>>, sep: char)
    requires
        l.len() >= 1,
        forall|i: int| 0 <= i < l.len() ==> !(#[trigger] l[i]).contains(sep),
    ensures
        split_on(joined(l, sep), sep) == l,
    decreases l.len(),
{
    if l.len() == 1 {
        assert(!l[0].contains(sep));
        lemma_split_without_sep(l[0], sep);
        assert(seq![l[0]] =~= l);
    } else {
        let l2 = l.drop_last();
        let x = l.last();
        assert forall|i: int| 0 <= i < l2.len() implies !(#[trigger] l2[i]).contains(sep) by {
            assert(l2[i] == l[i]);
        }
        lemma_split_joined(l2, sep);
        let j2 = joined(l2, sep);
        assert(joined(l, sep) =~= j2 + (seq![sep] + x));
        lemma_split_concat(j2, seq![sep] + x, sep);
        assert(!l[l.len() - 1].contains(sep));
        lemma_split_without_sep(x, sep);
        assert((seq![sep] + x).drop_first() =~= x);
        assert(split_on(seq![sep] + x, sep) =~= seq![Seq::<char>::empty(), x]);
        assert(l2.last() + Seq::<char>::empty() =~= l2.last());
        assert(l2.drop_last() + seq![l2.last(), x] =~= l);
    }
}

proof fn lemma_trimmed_empty()
    ensures
        trimmed(Seq::<char>::empty()) == Seq::<char>::empty(),
{
    assert(trimmed(Seq::<char>::empty()) =~= Seq::<char>::empty());
}

proof fn lemma_trimmed_unchanged(s: Seq<char>)
    requires
        s.len() > 0,
        !is_ws(s[0]),
        !is_ws(s.last()),
    ensures
        trimmed(s) == s,
{
    lemma_trim_start(s, 0);
    lemma_trim_end(s, s.len() as int);
    assert(s.subrange(0, s.len() as int) =~= s);
}

/// A MIME type that a `MimeType` value can carry unchanged: non-empty,
/// without surrounding whitespace, and without `;`.
pub open spec fn mime_item_ok(m: Seq<char>) -> bool {
    m.len() > 0 && trimmed(m) == m && !m.contains(';')
}

/// A hint that an extension-hint value can carry unchanged: a non-empty MIME
/// type without `=`, an extension, neither with surrounding whitespace or `;`.
pub open spec fn hint_ok(h: (Seq<char>, Seq<char>)) -> bool {
    &&& h.0.len() > 0
    &&& trimmed(h.0) == h.0
    &&& trimmed(h.1) == h.1
    &&& !h.0.contains(';')
    &&& !h.0.contains('=')
    &&& !h.1.contains(';')
}

proof fn lemma_cleaned_items(l: Seq<Seq<char>>)
    requires
        forall|i: int| 0 <= i < l.len() ==> mime_item_ok(#[trigger] l[i]),
    ensures
        cleaned(l) == l,
    decreases l.len(),
{
    if l.len() > 0 {
        let l2 = l.drop_last();
        assert forall|i: int| 0 <= i < l2.len() implies mime_item_ok(#[trigger] l2[i]) by {
            assert(l2[i] == l[i]);
        }
        lemma_cleaned_items(l2);
        assert(mime_item_ok(l[l.len() - 1]));
        assert(l2.push(l.last()) =~= l);
    }
}

/// Reading back the `MimeType` value written for a list gives the same list,
/// in the same order, when each item is non-empty, has no surrounding
/// whitespace and holds no `;`.
pub proof fn lemma_mime_list_round_trip(l: Seq<Seq<char>>)
    requires
        forall|i: int| 0 <= i < l.len() ==> mime_item_ok(#[trigger] l[i]),
    ensures
        mime_list_of(mime_list_text(l)) == l,
{
    assert forall|i: int| 0 <= i < l.len() implies !(#[trigger] l[i]).contains(';') by {
        assert(mime_item_ok(l[i]));
    }
    lemma_split_terminated(l, ';');
    let e = Seq::<char>::empty();
    lemma_trimmed_empty();
    assert(l.push(e).drop_last() =~= l);
    assert(l.push(e).last() == e);
    lemma_cleaned_items(l);
}

proof fn lemma_hint_piece_read(h: (Seq<char>, Seq<char>))
    requires
        hint_ok(h),
    ensures
        hint_of_piece(hint_piece(h)) == Some(h),
{
    let p = hint_piece(h);
    let k = h.0;
    let v = h.1;
    let n = k.len();
    assert(p[n as int] == '=');
    assert(p[0] == k[0]);
    assert(!is_ws(k[0])) by {
        lemma_trim_start_first(k);
    }
    assert(!is_ws(p.last())) by {
        if v.len() == 0 {
            assert(p.last() == '=');
        } else {
            assert(p.last() == v.last());
            lemma_trim_end_last(v);
        }
    }
    lemma_trimmed_unchanged(p);
    assert forall|j: int| 0 <= j < n implies p[j] != '=' by {
        assert(p[j] == k[j]);
        if k[j] == '=' {
            assert(k.contains('='));
        }
    }
    lemma_index_of_found(p, '=', n as int);
    assert(p.subrange(0, n as int) =~= k);
    assert(p.subrange(n as int + 1, p.len() as int) =~= v);
}

proof fn lemma_trim_start_first(s: Seq<char>)
    requires
        s.len() > 0,
        trimmed(s) == s,
    ensures
        !is_ws(s[0]),
{
    if is_ws(s[0]) {
        let a = crate::text::trim_start_index(s);
        lemma_trim_start_bound(s);
        lemma_trim_end_bound(s);
        assert(a >= 1);
        assert(trimmed(s).len() < s.len());
    }
}

proof fn lemma_trim_end_last(s: Seq<char>)
    requires
        s.len() > 0,
        trimmed(s) == s,
    ensures
        !is_ws(s.last()),
{
    if is_ws(s.last()) {
        lemma_trim_end_bound(s);
        lemma_trim_start_bound(s);
        assert(trimmed(s).len() < s.len());
    }
}

proof fn lemma_trim_start_bound(s: Seq<char>)
    ensures
        0 <= crate::text::trim_start_index(s) <= s.len(),
        s.len() > 0 && is_ws(s[0]) ==> crate::text::trim_start_index(s) >= 1,
    decreases s.len(),
{
    if s.len() > 0 {
        lemma_trim_start_bound(s.drop_first());
    }
}

proof fn lemma_trim_end_bound(s: Seq<char>)
    ensures
        0 <= crate::text::trim_end_index(s) <= s.len(),
        s.len() > 0 && is_ws(s.last()) ==> crate::text::trim_end_index(s) < s.len(),
    decreases s.len(),
{
    if s.len() > 0 {
        lemma_trim_end_bound(s.drop_last());
    }
}

proof fn lemma_hints_of_pieces_read(hs: Seq<(Seq<char>, Seq<char>)>)
    requires
        forall|i: int| 0 <= i < hs.len() ==> hint_ok(#[trigger] hs[i]),
    ensures
        hints_of_pieces(hs.map_values(|h: (Seq<char>, Seq<char>)| hint_piece(h))) == hs,
    decreases hs.len(),
{
    if hs.len() > 0 {
        let h2 = hs.drop_last();
        assert forall|i: int| 0 <= i < h2.len() implies hint_ok(#[trigger] h2[i]) by {
            assert(h2[i] == hs[i]);
        }
        lemma_hints_of_pieces_read(h2);
        let ps = hs.map_values(|h: (Seq<char>, Seq<char>)| hint_piece(h));
        assert(ps.drop_last() =~= h2.map_values(|h: (Seq<char>, Seq<char>)| hint_piece(h)));
        assert(hint_ok(hs[hs.len() - 1]));
        lemma_hint_piece_read(hs.last());
        assert(h2.push(hs.last()) =~= hs);
    }
}

/// Reading back the extension-hint value written for a list of hints gives
/// the same hints in the same order, when each MIME type is non-empty and
/// holds no `=`, and neither side has surrounding whitespace or a `;`.
pub proof fn lemma_hint_list_round_trip(hs: Seq<(Seq<char>, Seq<char>)>)
    requires
        forall|i: int| 0 <= i < hs.len() ==> hint_ok(#[trigger] hs[i]),
    ensures
        hint_list_of(hint_list_text(hs)) == hs,
{
    let ps = hs.map_values(|h: (Seq<char>, Seq<char>)| hint_piece(h));
    if hs.len() == 0 {
        assert(ps.len() == 0);
        assert(hint_list_text(hs) == Seq::<char>::empty());
        let e = Seq::<char>::empty();
        assert(split_on(e, ';') =~= seq![e]);
        lemma_trimmed_empty();
        lemma_index_of_absent(e, '=');
        assert(hint_of_piece(e) is None);
        assert(seq![e].drop_last() =~= Seq::<Seq<char>>::empty());
        assert(seq![e].last() == e);
        assert(hints_of_pieces(seq![e]) == hints_of_pieces(Seq::<Seq<char>>::empty()));
        assert(hint_list_of(hint_list_text(hs)) =~= hs);
    } else {
        assert forall|i: int| 0 <= i < ps.len() implies !(#[trigger] ps[i]).contains(';') by {
            let h = hs[i];
            assert(hint_ok(h));
            if ps[i].contains(';') {
                let j = choose|j: int| 0 <= j < ps[i].len() && ps[i][j] == ';';
                if j < h.0.len() {
                    assert(h.0[j] == ';');
                    assert(h.0.contains(';'));
                } else if j > h.0.len() {
                    assert(h.1[j - h.0.len() - 1] == ';');
                    assert(h.1.contains(';'));
                }
            }
        }
        lemma_split_joined(ps, ';');
        lemma_hints_of_pieces_read(hs);
    }
}

} // verus!
