//! Resolving what a user typed (an extension or a MIME type) to a MIME type
//! and the extension hint that goes with it.
use vstd::prelude::*;
use crate::text::{lower_of, lowercase, trim_text, trimmed};

verus! {

/// What the typed text is taken for.
#[derive(Debug, PartialEq, Eq)]
pub enum MimeInput {
    /// Nothing usable: empty, or only dots.
    Nothing,
    /// A MIME type, to be used as typed.
    MimeType(String),
    /// An extension, without its leading dots.
    Extension(String),
}

/// What the content-type guessing facility said of a file with some extension.
pub struct ContentGuess {
    /// The guessed content type.
    pub content_type: String,
    /// The MIME type derived from the content type, if one could be.
    pub mime: Option<String>,
    /// Whether the guess was flagged uncertain.
    pub uncertain: bool,
}

/// `s` without its leading dots.
pub open spec fn without_leading_dots(s: Seq<char>) -> Seq<char>
    decreases s.len(),
{
    if s.len() > 0 && s[0] == '.' {
        without_leading_dots(s.drop_first())
    } else {
        s
    }
}

/// How typed text is read: trimmed; empty is nothing; text with a `/` is a
/// MIME type; else an extension with its leading dots removed, nothing when
/// only dots remain.
pub open spec fn input_kind(input: Seq<char>) -> Option<(bool, Seq<char>)> {
    let t = trimmed(input);
    if t.len() == 0 {
        None
    } else if t.contains('/') {
        Some((true, t))
    } else if without_leading_dots(t).len() == 0 {
        None
    } else {
        Some((false, without_leading_dots(t)))
    }
}

proof fn lemma_without_leading_dots(s: Seq<char>, i: int)
    requires
        0 <= i <= s.len(),
        forall|k: int| 0 <= k < i ==> s[k] == '.',
        i == s.len() || s[i] != '.',
    ensures
        without_leading_dots(s) == s.subrange(i, s.len() as int),
    decreases i,
{
    if i == 0 {
        assert(s.subrange(0, s.len() as int) =~= s);
    } else {
        lemma_without_leading_dots(s.drop_first(), i - 1);
        assert(s.drop_first().subrange(i - 1, s.len() - 1) =~= s.subrange(i, s.len() as int));
    }
}

/// Reads typed text. Resolution fails only where the text is empty after
/// trimming, or holds no `/` and nothing but dots.
pub fn classify_input(input: &str) -> (r: MimeInput)
    ensures
        match input_kind(input@) {
            None => r == MimeInput::Nothing,
            Some((true, t)) => r matches MimeInput::MimeType(m) && m@ == t,
            Some((false, e)) => r matches MimeInput::Extension(x) && x@ == e,
        },
        r == MimeInput::Nothing <==> (trimmed(input@).len() == 0 || (!trimmed(input@).contains('/')
            && forall|k: int| 0 <= k < trimmed(input@).len() ==> trimmed(input@)[k] == '.')),
{
    let t = trim_text(input);
    let n = t.unicode_len();
    if n == 0 {
        return MimeInput::Nothing;
    }
    let mut k: usize = 0;
    while k < n
        invariant
            n == t@.len(),
            t@ == trimmed(input@),
            k <= n,
            forall|j: int| 0 <= j < k ==> t@[j] != '/',
        decreases n - k,
    {
        if t.get_char(k) == '/' {
            assert(t@[k as int] == '/');
            assert(t@.contains('/'));
            return MimeInput::MimeType(String::from_str(t));
        }
        k = k + 1;
    }
    assert(!t@.contains('/'));
    let mut i: usize = 0;
    while i < n && t.get_char(i) == '.'
        invariant
            n == t@.len(),
            i <= n,
            forall|j: int| 0 <= j < i ==> t@[j] == '.',
        decreases n - i,
    {
        i = i + 1;
    }
    proof {
        lemma_without_leading_dots(t@, i as int);
    }
    if i == n {
        MimeInput::Nothing
    } else {
        MimeInput::Extension(String::from_str(t.substring_char(i, n)))
    }
}

/// The MIME type and extension hint that an extension resolves to, given
/// the guess for it: the derived MIME type when there is one, else the
/// guessed content type unless it is uncertain, else
/// `application/x-` followed by the lowercased extension. The hint is the
/// extension after a `.`.
pub open spec fn extension_resolution(
    ext: Seq<char>,
    mime: Option<Seq<char>>,
    content_type: Seq<char>,
    uncertain: bool,
) -> (Seq<char>, Seq<char>) {
    let hint = seq!['.'] + ext;
    match mime {
        Some(m) => (m, hint),
        None => if !uncertain {
            (content_type, hint)
        } else {
            ("application/x-"@ + lower_of(ext), hint)
        },
    }
}

/// Resolves an extension, given the guess for it.
pub fn resolve_extension(ext: &str, guess: &ContentGuess) -> (r: (String, String))
    ensures
        (r.0@, r.1@) == extension_resolution(
            ext@,
            match guess.mime {
                Some(m) => Some(m@),
                None => None,
            },
            guess.content_type@,
            guess.uncertain,
        ),
{
    let mut hint = String::from_str(".");
    hint.append(ext);
    proof {
        reveal_strlit(".");
    }
    match &guess.mime {
        Some(m) => (m.clone(), hint),
        None => if !guess.uncertain {
            (guess.content_type.clone(), hint)
        } else {
            let mut mime = String::from_str("application/x-");
            let lower = lowercase(ext);
            mime.append(lower.as_str());
            (mime, hint)
        },
    }
}

/// The file name whose content type is guessed for an extension: `dummy.` and the extension.
pub fn synthetic_file_name(ext: &str) -> (r: String)
    ensures
        r@ == "dummy."@ + ext@,
{
    let mut r = String::from_str("dummy.");
    r.append(ext);
    r
}

/// Resolves typed text to a MIME type and an extension hint. A MIME type is
/// used as typed, with no hint. An extension is resolved with `guess`, the
/// guess for its synthetic file name; without one it is resolved as an
/// uncertain guess with no MIME type.
pub fn resolve_mime_from_input(input: &str, guess: Option<&ContentGuess>) -> (r: Option<(String, String)>)
    ensures
        match input_kind(input@) {
            None => r is None,
            Some((true, t)) => r matches Some(p) && p.0@ == t && p.1@.len() == 0,
            Some((false, e)) => r matches Some(p) && (p.0@, p.1@) == match guess {
                Some(g) => extension_resolution(
                    e,
                    match g.mime {
                        Some(m) => Some(m@),
                        None => None,
                    },
                    g.content_type@,
                    g.uncertain,
                ),
                None => extension_resolution(e, None, Seq::empty(), true),
            },
        },
        r is None <==> (trimmed(input@).len() == 0 || (!trimmed(input@).contains('/') && forall|k: int|
            0 <= k < trimmed(input@).len() ==> trimmed(input@)[k] == '.')),
{
    match classify_input(input) {
        MimeInput::Nothing => None,
        MimeInput::MimeType(m) => Some((m, String::new())),
        MimeInput::Extension(e) => match guess {
            Some(g) => Some(resolve_extension(e.as_str(), g)),
            None => {
                let fallback = ContentGuess { content_type: String::new(), mime: None, uncertain: true };
                Some(resolve_extension(e.as_str(), &fallback))
            },
        },
    }
}

} // verus!
