//! The extension hints of a launcher: a map from MIME type to a file
//! extension, kept ordered by MIME type so that it is written in that order.
use vstd::prelude::*;
use crate::codec::pairs_view;
use crate::text::{
    lemma_seq_lt_asymmetric, lemma_seq_lt_irreflexive, lemma_seq_lt_total,
    lemma_seq_lt_transitive, seq_lt, text_equal, text_less,
};

verus! {

/// Keys strictly ascending.
pub open spec fn keys_ascending(s: Seq<(Seq<char>, Seq<char>)>) -> bool {
    forall|i: int, j: int| 0 <= i < j < s.len() ==> seq_lt(#[trigger] s[i].0, #[trigger] s[j].0)
}

/// The value of the last pair with key `k`.
pub open spec fn hint_lookup(s: Seq<(Seq<char>, Seq<char>)>, k: Seq<char>) -> Option<Seq<char>>
    decreases s.len(),
{
    if s.len() == 0 {
        None
    } else if s.last().0 == k {
        Some(s.last().1)
    } else {
        hint_lookup(s.drop_last(), k)
    }
}

/// The map that the pairs give, a later pair overriding an earlier one with the same key.
pub open spec fn pairs_map(s: Seq<(Seq<char>, Seq<char>)>) -> Map<Seq<char>, Seq<char>> {
    Map::new(|k: Seq<char>| hint_lookup(s, k) is Some, |k: Seq<char>| hint_lookup(s, k)->0)
}

spec fn put_view(put: Option<(String, String)>) -> Seq<(Seq<char>, Seq<char>)> {
    match put {
        Some(p) => seq![(p.0@, p.1@)],
        None => Seq::empty(),
    }
}

/// `src` with `drop` pairs at `at` replaced by `put`.
fn splice(src: &Vec<(String, String)>, at: usize, drop: usize, put: Option<(String, String)>) -> (r: Vec<
    (String, String),
>)
    requires
        at + drop <= src.len(),
    ensures
        pairs_view(r@) == pairs_view(src@).subrange(0, at as int) + put_view(put) + pairs_view(
            src@,
        ).subrange(at + drop, src.len() as int),
{
    let ghost s = pairs_view(src@);
    let mut r: Vec<(String, String)> = Vec::new();
    let mut j: usize = 0;
    while j < at
        invariant
            j <= at,
            at + drop <= src.len(),
            s == pairs_view(src@),
            pairs_view(r@) == s.subrange(0, j as int),
        decreases at - j,
    {
        let ghost before = pairs_view(r@);
        r.push((src[j].0.clone(), src[j].1.clone()));
        proof {
            assert(pairs_view(r@) =~= before.push(s[j as int]));
            assert(s.subrange(0, j + 1) =~= s.subrange(0, j as int).push(s[j as int]));
        }
        j = j + 1;
    }
    let ghost mid = put_view(put);
    match put {
        Some(p) => {
            let ghost before = pairs_view(r@);
            r.push(p);
            proof {
                assert(pairs_view(r@) =~= before + mid);
            }
        },
        None => {
            assert(pairs_view(r@) =~= s.subrange(0, at as int) + mid);
        },
    }
    let mut j: usize = at + drop;
    while j < src.len()
        invariant
            at + drop <= j <= src.len(),
            s == pairs_view(src@),
            pairs_view(r@) == s.subrange(0, at as int) + mid + s.subrange(at + drop, j as int),
        decreases src.len() - j,
    {
        let ghost before = pairs_view(r@);
        r.push((src[j].0.clone(), src[j].1.clone()));
        proof {
            assert(pairs_view(r@) =~= before.push(s[j as int]));
            assert(s.subrange(at + drop, j + 1) =~= s.subrange(at + drop, j as int).push(s[j as int]));
        }
        j = j + 1;
    }
    r
}

/// Map from MIME type to the extension shown for it.
#[derive(Debug)]
pub struct ExtensionHints {
    pairs: Vec<(String, String)>,
}

impl View for ExtensionHints {
    type V = Map<Seq<char>, Seq<char>>;

    open spec fn view(&self) -> Map<Seq<char>, Seq<char>> {
        pairs_map(self.entries())
    }
}

proof fn lemma_ascending_prefix(s: Seq<(Seq<char>, Seq<char>)>)
    requires
        keys_ascending(s),
        s.len() > 0,
    ensures
        keys_ascending(s.drop_last()),
{
    let s2 = s.drop_last();
    assert forall|i: int, j: int| 0 <= i < j < s2.len() implies seq_lt(
        #[trigger] s2[i].0,
        #[trigger] s2[j].0,
    ) by {
        assert(s2[i] == s[i] && s2[j] == s[j]);
    }
}

/// In pairs with strictly ascending keys, the pair at `i` is what its key looks up.
pub proof fn lemma_lookup_at(s: Seq<(Seq<char>, Seq<char>)>, i: int)
    requires
        keys_ascending(s),
        0 <= i < s.len(),
    ensures
        hint_lookup(s, s[i].0) == Some(s[i].1),
    decreases s.len(),
{
    if i < s.len() - 1 {
        let s2 = s.drop_last();
        lemma_ascending_prefix(s);
        assert(s2[i] == s[i]);
        lemma_lookup_at(s2, i);
        if s.last().0 == s[i].0 {
            assert(seq_lt(s[i].0, s[s.len() - 1].0));
            lemma_seq_lt_irreflexive(s[i].0);
        }
    }
}

/// A key that no pair has looks up nothing.
pub proof fn lemma_lookup_absent(s: Seq<(Seq<char>, Seq<char>)>, k: Seq<char>)
    requires
        forall|i: int| 0 <= i < s.len() ==> (#[trigger] s[i]).0 != k,
    ensures
        hint_lookup(s, k) is None,
    decreases s.len(),
{
    if s.len() > 0 {
        let s2 = s.drop_last();
        assert(s[s.len() - 1].0 != k);
        assert forall|i: int| 0 <= i < s2.len() implies (#[trigger] s2[i]).0 != k by {
            assert(s2[i] == s[i]);
        }
        lemma_lookup_absent(s2, k);
    }
}

impl ExtensionHints {
    /// The pairs, in ascending order of MIME type.
    pub closed spec fn entries(&self) -> Seq<(Seq<char>, Seq<char>)> {
        pairs_view(self.pairs@)
    }

    /// MIME types strictly ascending.
    #[verifier::type_invariant]
    spec fn wf(self) -> bool {
        keys_ascending(self.entries())
    }

    /// An empty map.
    pub fn new() -> (r: Self)
        ensures
            r@ == Map::<Seq<char>, Seq<char>>::empty(),
            r.entries().len() == 0,
    {
        let r = ExtensionHints { pairs: Vec::new() };
        assert(r.entries() =~= Seq::<(Seq<char>, Seq<char>)>::empty());
        assert(r@ =~= Map::<Seq<char>, Seq<char>>::empty());
        r
    }

    /// The pairs, in ascending order of MIME type.
    pub fn pairs(&self) -> (r: &Vec<(String, String)>)
        ensures
            pairs_view(r@) == self.entries(),
            keys_ascending(self.entries()),
    {
        proof {
            use_type_invariant(self);
        }
        &self.pairs
    }

    /// A copy of this map.
    pub fn duplicate(&self) -> (r: Self)
        ensures
            r@ == self@,
    {
        ExtensionHints::from_pairs(&self.pairs)
    }

    /// Records `ext` for `mime` unless something is recorded for it already.
    pub fn insert_if_absent(&mut self, mime: &str, ext: &str)
        ensures
            final(self)@ == if old(self)@.contains_key(mime@) {
                old(self)@
            } else {
                old(self)@.insert(mime@, ext@)
            },
    {
        if self.get(mime).is_none() {
            self.insert(String::from_str(mime), String::from_str(ext));
        }
    }

    /// The map that `pairs` give, a later pair overriding an earlier one.
    pub fn from_pairs(pairs: &Vec<(String, String)>) -> (r: Self)
        ensures
            r@ == pairs_map(pairs_view(pairs@)),
    {
        let ghost s = pairs_view(pairs@);
        let mut r = ExtensionHints::new();
        let mut i: usize = 0;
        proof {
            assert(pairs_map(s.subrange(0, 0)) =~= Map::<Seq<char>, Seq<char>>::empty());
        }
        while i < pairs.len()
            invariant
                i <= pairs.len(),
                s == pairs_view(pairs@),
                r@ == pairs_map(s.subrange(0, i as int)),
            decreases pairs.len() - i,
        {
            r.insert(pairs[i].0.clone(), pairs[i].1.clone());
            proof {
                let t = s.subrange(0, i + 1);
                assert(t.drop_last() =~= s.subrange(0, i as int));
                assert(t.last() == s[i as int]);
                assert(pairs_map(t) =~= pairs_map(s.subrange(0, i as int)).insert(s[i as int].0, s[i as int].1));
            }
            i = i + 1;
        }
        proof {
            assert(s.subrange(0, pairs.len() as int) =~= s);
        }
        r
    }

    fn position(&self, k: &str) -> (r: usize)
        requires
            self.wf(),
        ensures
            r <= self.entries().len(),
            forall|i: int| 0 <= i < r ==> seq_lt(#[trigger] self.entries()[i].0, k@),
            r < self.entries().len() ==> !seq_lt(self.entries()[r as int].0, k@),
    {
        let mut i: usize = 0;
        while i < self.pairs.len() && text_less(self.pairs[i].0.as_str(), k)
            invariant
                i <= self.pairs.len(),
                forall|j: int| 0 <= j < i ==> seq_lt(#[trigger] self.entries()[j].0, k@),
            decreases self.pairs.len() - i,
        {
            i = i + 1;
        }
        i
    }

    /// The extension recorded for `mime`.
    pub fn get(&self, mime: &str) -> (r: Option<&String>)
        ensures
            match r {
                Some(v) => self@.contains_key(mime@) && self@[mime@] == v@,
                None => !self@.contains_key(mime@),
            },
    {
        proof {
            use_type_invariant(self);
        }
        let i = self.position(mime);
        if i < self.pairs.len() && text_equal(self.pairs[i].0.as_str(), mime) {
            proof {
                lemma_lookup_at(self.entries(), i as int);
            }
            Some(&self.pairs[i].1)
        } else {
            proof {
                assert forall|j: int| 0 <= j < self.entries().len() implies (#[trigger] self.entries()[j]).0 != mime@ by {
                    if j < i {
                        lemma_seq_lt_irreflexive(mime@);
                    } else if j > i {
                        assert(seq_lt(self.entries()[i as int].0, self.entries()[j].0));
                        lemma_seq_lt_total(self.entries()[i as int].0, mime@);
                        if self.entries()[j].0 == mime@ {
                            lemma_seq_lt_asymmetric(self.entries()[i as int].0, mime@);
                        }
                    }
                }
                lemma_lookup_absent(self.entries(), mime@);
            }
            None
        }
    }

    /// Records `ext` for `mime`, replacing what was recorded for it.
    pub fn insert(&mut self, mime: String, ext: String)
        ensures
            final(self)@ == old(self)@.insert(mime@, ext@),
    {
        proof {
            use_type_invariant(&*self);
        }
        let i = self.position(mime.as_str());
        let ghost s = self.entries();
        let ghost k = mime@;
        let ghost v = ext@;
        if i < self.pairs.len() && text_equal(self.pairs[i].0.as_str(), mime.as_str()) {
            let np = splice(&self.pairs, i, 1, Some((mime, ext)));
            proof {
                let t = pairs_view(np@);
                assert(t =~= s.update(i as int, (k, v)));
                assert(keys_ascending(t));
                assert forall|q: Seq<char>| hint_lookup(t, q) == (if q == k { Some(v) } else { hint_lookup(s, q) }) by {
                    if q != k {
                        if exists|j: int| 0 <= j < s.len() && s[j].0 == q {
                            let j = choose|j: int| 0 <= j < s.len() && s[j].0 == q;
                            assert(t[j] == s[j]);
                            lemma_lookup_at(s, j);
                            lemma_lookup_at(t, j);
                        } else {
                            assert forall|j: int| 0 <= j < t.len() implies (#[trigger] t[j]).0 != q by {
                                if j != i {
                                    assert(t[j] == s[j]);
                                }
                            }
                            lemma_lookup_absent(s, q);
                            lemma_lookup_absent(t, q);
                        }
                    } else {
                        assert(t[i as int] == (k, v));
                        lemma_lookup_at(t, i as int);
                    }
                }
            }
            self.pairs = np;
            proof {
                let t = self.entries();
                assert(self@ =~= old(self)@.insert(k, v));
            }
        } else {
            proof {
                if i < s.len() {
                    lemma_seq_lt_total(s[i as int].0, k);
                }
            }
            let np = splice(&self.pairs, i, 0, Some((mime, ext)));
            proof {
                let t = pairs_view(np@);
                assert(t =~= s.insert(i as int, (k, v)));
                assert forall|a: int, b: int| 0 <= a < b < t.len() implies seq_lt(#[trigger] t[a].0, #[trigger] t[b].0) by {
                    if b < i {
                        assert(t[a] == s[a] && t[b] == s[b]);
                    } else if b == i {
                        assert(t[a] == s[a]);
                    } else if a > i {
                        assert(t[a] == s[a - 1] && t[b] == s[b - 1]);
                    } else if a == i {
                        assert(t[b] == s[b - 1]);
                        if b - 1 > i {
                            lemma_seq_lt_transitive(k, s[i as int].0, s[b - 1].0);
                        }
                    } else {
                        assert(t[a] == s[a] && t[b] == s[b - 1]);
                    }
                }
                assert forall|q: Seq<char>| hint_lookup(t, q) == (if q == k { Some(v) } else { hint_lookup(s, q) }) by {
                    if q != k {
                        if exists|j: int| 0 <= j < s.len() && s[j].0 == q {
                            let j = choose|j: int| 0 <= j < s.len() && s[j].0 == q;
                            lemma_lookup_at(s, j);
                            if j < i {
                                assert(t[j] == s[j]);
                                lemma_lookup_at(t, j);
                            } else {
                                assert(t[j + 1] == s[j]);
                                lemma_lookup_at(t, j + 1);
                            }
                        } else {
                            assert forall|j: int| 0 <= j < t.len() implies (#[trigger] t[j]).0 != q by {
                                if j < i {
                                    assert(t[j] == s[j]);
                                } else if j > i {
                                    assert(t[j] == s[j - 1]);
                                }
                            }
                            lemma_lookup_absent(s, q);
                            lemma_lookup_absent(t, q);
                        }
                    } else {
                        assert(t[i as int] == (k, v));
                        lemma_lookup_at(t, i as int);
                    }
                }
            }
            self.pairs = np;
            proof {
                let t = self.entries();
                assert(self@ =~= old(self)@.insert(k, v));
            }
        }
    }

    /// Forgets what was recorded for `mime`; nothing happens when there is none.
    pub fn remove(&mut self, mime: &str)
        ensures
            final(self)@ == old(self)@.remove(mime@),
    {
        proof {
            use_type_invariant(&*self);
        }
        let i = self.position(mime);
        let ghost s = self.entries();
        let ghost k = mime@;
        if i < self.pairs.len() && text_equal(self.pairs[i].0.as_str(), mime) {
            let np = splice(&self.pairs, i, 1, None);
            proof {
                let t = pairs_view(np@);
                assert(t =~= s.remove(i as int));
                assert forall|a: int, b: int| 0 <= a < b < t.len() implies seq_lt(#[trigger] t[a].0, #[trigger] t[b].0) by {
                    if b < i {
                        assert(t[a] == s[a] && t[b] == s[b]);
                    } else if a < i {
                        assert(t[a] == s[a] && t[b] == s[b + 1]);
                    } else {
                        assert(t[a] == s[a + 1] && t[b] == s[b + 1]);
                    }
                }
                assert forall|q: Seq<char>| hint_lookup(t, q) == (if q == k { None } else { hint_lookup(s, q) }) by {
                    if exists|j: int| 0 <= j < s.len() && s[j].0 == q && j != i {
                        let j = choose|j: int| 0 <= j < s.len() && s[j].0 == q && j != i;
                        lemma_lookup_at(s, j);
                        if j < i {
                            assert(t[j] == s[j]);
                            lemma_lookup_at(t, j);
                        } else {
                            assert(t[j - 1] == s[j]);
                            lemma_lookup_at(t, j - 1);
                        }
                        if q == k {
                            assert(seq_lt(s[i as int].0, s[j].0) || seq_lt(s[j].0, s[i as int].0));
                            lemma_seq_lt_irreflexive(k);
                        }
                    } else {
                        assert forall|j: int| 0 <= j < t.len() implies (#[trigger] t[j]).0 != q by {
                            if j < i {
                                assert(t[j] == s[j]);
                            } else {
                                assert(t[j] == s[j + 1]);
                            }
                        }
                        lemma_lookup_absent(t, q);
                        if q != k {
                            assert forall|j: int| 0 <= j < s.len() implies (#[trigger] s[j]).0 != q by {
                                if j == i {
                                    assert(s[j].0 == k);
                                }
                            }
                            lemma_lookup_absent(s, q);
                        }
                    }
                }
            }
            self.pairs = np;
            proof {
                let t = self.entries();
                assert(self@ =~= old(self)@.remove(k));
            }
        } else {
            proof {
                assert forall|j: int| 0 <= j < s.len() implies (#[trigger] s[j]).0 != k by {
                    if j < i {
                        lemma_seq_lt_irreflexive(k);
                    } else if j > i {
                        lemma_seq_lt_total(s[i as int].0, k);
                        if s[j].0 == k {
                            lemma_seq_lt_asymmetric(s[i as int].0, k);
                        }
                    }
                }
                lemma_lookup_absent(s, k);
                assert(self@ =~= old(self)@.remove(k));
            }
        }
    }
}

} // verus!
