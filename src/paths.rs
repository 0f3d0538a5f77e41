//! Where the shared MIME-info glob databases are looked for.
use vstd::prelude::*;
use crate::associations::with_added;
use crate::codec::strings_view;
use crate::text::{split_on, split_text, text_equal, trim_text, trimmed};

verus! {

/// `s` without its trailing `/` characters.
pub open spec fn without_trailing_slashes(s: Seq<char>) -> Seq<char>
    decreases s.len(),
{
    if s.len() > 0 && s.last() == '/' {
        without_trailing_slashes(s.drop_last())
    } else {
        s
    }
}

/// The glob database under a data directory.
pub open spec fn globs_under(dir: Seq<char>) -> Seq<char> {
    without_trailing_slashes(dir) + "/mime/globs2"@
}

/// The list with each item added unless already present, in order.
pub open spec fn deduplicated(l: Seq<Seq<char>>) -> Seq<Seq<char>>
    decreases l.len(),
{
    if l.len() == 0 {
        l
    } else {
        with_added(deduplicated(l.drop_last()), l.last())
    }
}

/// The data directories that a search-path value lists: its `:`-separated
/// pieces, trimmed, the empty ones dropped.
pub open spec fn listed_dirs(ps: Seq<Seq<char>>) -> Seq<Seq<char>>
    decreases ps.len(),
{
    if ps.len() == 0 {
        Seq::empty()
    } else if trimmed(ps.last()).len() == 0 {
        listed_dirs(ps.drop_last())
    } else {
        listed_dirs(ps.drop_last()).push(trimmed(ps.last()))
    }
}

/// The candidate databases, in the order they are consulted: under the
/// user's data directory when it is set and non-empty; under the home
/// directory's `.local/share`; under each listed system data directory;
/// then the two fixed system ones.
pub open spec fn candidate_paths(
    data_home: Option<Seq<char>>,
    home: Option<Seq<char>>,
    data_dirs: Option<Seq<char>>,
) -> Seq<Seq<char>> {
    let first = match data_home {
        Some(h) => if h.len() > 0 { seq![globs_under(h)] } else { Seq::empty() },
        None => Seq::empty(),
    };
    let second = match home {
        Some(h) => seq![h + "/.local/share/mime/globs2"@],
        None => Seq::empty(),
    };
    let third = match data_dirs {
        Some(d) => listed_dirs(split_on(d, ':')).map_values(|x: Seq<char>| globs_under(x)),
        None => Seq::empty(),
    };
    first + second + third + seq!["/usr/local/share/mime/globs2"@, "/usr/share/mime/globs2"@]
}

/// Appends `candidate` unless `paths` holds it already.
pub fn push_unique_path(paths: &mut Vec<String>, candidate: String)
    ensures
        strings_view(final(paths)@) == with_added(strings_view(old(paths)@), candidate@),
{
    let mut i: usize = 0;
    while i < paths.len()
        invariant
            i <= paths.len(),
            forall|k: int| 0 <= k < i ==> strings_view(paths@)[k] != candidate@,
        decreases paths.len() - i,
    {
        if text_equal(paths[i].as_str(), candidate.as_str()) {
            assert(strings_view(paths@)[i as int] == candidate@);
            return;
        }
        i = i + 1;
    }
    let ghost before = strings_view(paths@);
    paths.push(candidate);
    assert(strings_view(paths@) =~= before.push(candidate@));
}

/// `dir` without trailing `/`, followed by `/mime/globs2`.
fn globs_path(dir: &str) -> (r: String)
    ensures
        r@ == globs_under(dir@),
{
    let mut n = dir.unicode_len();
    assert(dir@.subrange(0, n as int) =~= dir@);
    while n > 0 && dir.get_char(n - 1) == '/'
        invariant
            n <= dir@.len(),
            without_trailing_slashes(dir@) == without_trailing_slashes(dir@.subrange(0, n as int)),
        decreases n,
    {
        proof {
            assert(dir@.subrange(0, n as int).drop_last() =~= dir@.subrange(0, n - 1));
        }
        n = n - 1;
    }
    let mut r = String::from_str(dir.substring_char(0, n));
    r.append("/mime/globs2");
    r
}

/// The glob databases to read, in order and each once.
pub fn mime_database_paths(data_home: Option<&str>, home: Option<&str>, data_dirs: Option<&str>) -> (r: Vec<String>)
    ensures
        strings_view(r@) == deduplicated(
            candidate_paths(
                match data_home {
                    Some(h) => Some(h@),
                    None => None,
                },
                match home {
                    Some(h) => Some(h@),
                    None => None,
                },
                match data_dirs {
                    Some(d) => Some(d@),
                    None => None,
                },
            ),
        ),
{
    let ghost dh = match data_home {
        Some(h) => Some(h@),
        None => None::<Seq<char>>,
    };
    let ghost hm = match home {
        Some(h) => Some(h@),
        None => None::<Seq<char>>,
    };
    let ghost dd = match data_dirs {
        Some(d) => Some(d@),
        None => None::<Seq<char>>,
    };
    let ghost all = candidate_paths(dh, hm, dd);
    let mut candidates: Vec<String> = Vec::new();
    match data_home {
        Some(h) => if h.unicode_len() > 0 {
            candidates.push(globs_path(h));
        },
        None => {},
    }
    match home {
        Some(h) => {
            let mut p = String::from_str(h);
            p.append("/.local/share/mime/globs2");
            candidates.push(p);
        },
        None => {},
    }
    let ghost first = match dh {
        Some(h) => if h.len() > 0 { seq![globs_under(h)] } else { Seq::<Seq<char>>::empty() },
        None => Seq::<Seq<char>>::empty(),
    };
    let ghost second = match hm {
        Some(h) => seq![h + "/.local/share/mime/globs2"@],
        None => Seq::<Seq<char>>::empty(),
    };
    let ghost third = match dd {
        Some(d) => listed_dirs(split_on(d, ':')).map_values(|x: Seq<char>| globs_under(x)),
        None => Seq::<Seq<char>>::empty(),
    };
    let ghost head = strings_view(candidates@);
    assert(head =~= first + second);
    match data_dirs {
        Some(d) => {
            let pieces = split_text(d, ':');
            let ghost ps = pieces@.map_values(|x: &str| x@);
            let mut i: usize = 0;
            assert(listed_dirs(ps.subrange(0, 0)) =~= Seq::<Seq<char>>::empty());
            assert(strings_view(candidates@) =~= head + listed_dirs(ps.subrange(0, 0)).map_values(|x: Seq<char>| globs_under(x)));
            while i < pieces.len()
                invariant
                    i <= pieces.len(),
                    ps == pieces@.map_values(|x: &str| x@),
                    strings_view(candidates@) == head + listed_dirs(ps.subrange(0, i as int)).map_values(
                        |x: Seq<char>| globs_under(x),
                    ),
                decreases pieces.len() - i,
            {
                let t = trim_text(pieces[i]);
                proof {
                    assert(ps.subrange(0, i + 1).drop_last() =~= ps.subrange(0, i as int));
                    assert(ps.subrange(0, i + 1).last() == pieces@[i as int]@);
                }
                let ghost before = strings_view(candidates@);
                if t.unicode_len() > 0 {
                    candidates.push(globs_path(t));
                    proof {
                        let l = listed_dirs(ps.subrange(0, i as int));
                        assert(listed_dirs(ps.subrange(0, i + 1)) == l.push(t@));
                        assert(l.push(t@).map_values(|x: Seq<char>| globs_under(x)) =~= l.map_values(
                            |x: Seq<char>| globs_under(x),
                        ).push(globs_under(t@)));
                        assert(strings_view(candidates@) =~= before.push(globs_under(t@)));
                    }
                }
                i = i + 1;
            }
            assert(ps.subrange(0, pieces.len() as int) =~= ps);
        },
        None => {},
    }
    assert(strings_view(candidates@) =~= head + third);
    let ghost middle = strings_view(candidates@);
    candidates.push(String::from_str("/usr/local/share/mime/globs2"));
    candidates.push(String::from_str("/usr/share/mime/globs2"));
    proof {
        assert(strings_view(candidates@) =~= middle + seq!["/usr/local/share/mime/globs2"@, "/usr/share/mime/globs2"@]);
        assert(strings_view(candidates@) =~= all);
    }
    let mut r: Vec<String> = Vec::new();
    let mut k: usize = 0;
    assert(strings_view(r@) =~= deduplicated(all.subrange(0, 0)));
    while k < candidates.len()
        invariant
            k <= candidates.len(),
            strings_view(candidates@) == all,
            strings_view(r@) == deduplicated(all.subrange(0, k as int)),
        decreases candidates.len() - k,
    {
        proof {
            assert(all.subrange(0, k + 1).drop_last() =~= all.subrange(0, k as int));
            assert(all.subrange(0, k + 1).last() == all[k as int]);
        }
        push_unique_path(&mut r, candidates[k].clone());
        k = k + 1;
    }
    assert(all.subrange(0, candidates.len() as int) =~= all);
    r
}

} // verus!
