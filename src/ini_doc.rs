//! The INI documents of the `ini` crate, seen as their sections in order,
//! each with its key/value pairs in order.
use vstd::prelude::*;
use crate::codec::pairs_view;

verus! {

#[verifier::external_type_specification]
#[verifier::external_body]
pub struct ExIni(ini::Ini);

#[verifier::external_type_specification]
#[verifier::external_body]
pub struct ExProperties(ini::Properties);

#[verifier::external_type_specification]
#[verifier::external_body]
pub struct ExParseError(ini::ParseError);

/// A section's name (`None` for the general section) and its pairs.
pub type IniSection = (Option<Seq<char>>, Seq<(Seq<char>, Seq<char>)>);

/// The sections of a document, in the order the document walks them.
pub uninterp spec fn ini_sections(doc: ini::Ini) -> Seq<IniSection>;

/// The key/value pairs of a section, in the order the section walks them.
pub uninterp spec fn property_pairs(props: ini::Properties) -> Seq<(Seq<char>, Seq<char>)>;

/// What `Ini::load_from_str` reads from a text: its sections, or `None` where it refuses the text.
pub uninterp spec fn ini_parse(text: Seq<char>) -> Option<Seq<IniSection>>;

/// The bytes that `Ini::write_to` produces for a document with these sections.
pub uninterp spec fn ini_written(sections: Seq<IniSection>) -> Seq<u8>;

/// Index of the first section named `name`, or `-1`.
pub open spec fn section_index(d: Seq<IniSection>, name: Seq<char>) -> int
    decreases d.len(),
{
    if d.len() == 0 {
        -1
    } else if d[0].0 == Some(name) {
        0
    } else if section_index(d.drop_first(), name) < 0 {
        -1
    } else {
        section_index(d.drop_first(), name) + 1
    }
}

/// Whether exactly one section, at `i`, is named `name`.
pub open spec fn only_section_at(d: Seq<IniSection>, name: Seq<char>, i: int) -> bool {
    &&& 0 <= i < d.len()
    &&& d[i].0 == Some(name)
    &&& forall|j: int| 0 <= j < d.len() && j != i ==> (#[trigger] d[j]).0 != Some(name)
}

/// The pairs without those whose key is `key`.
pub open spec fn without_key(ps: Seq<(Seq<char>, Seq<char>)>, key: Seq<char>) -> Seq<(Seq<char>, Seq<char>)>
    decreases ps.len(),
{
    if ps.len() == 0 {
        ps
    } else if ps.last().0 == key {
        without_key(ps.drop_last(), key)
    } else {
        without_key(ps.drop_last(), key).push(ps.last())
    }
}

/// The value of the first pair whose key is `key`.
pub open spec fn first_value(ps: Seq<(Seq<char>, Seq<char>)>, key: Seq<char>) -> Option<Seq<char>>
    decreases ps.len(),
{
    if ps.len() == 0 {
        None
    } else if ps[0].0 == key {
        Some(ps[0].1)
    } else {
        first_value(ps.drop_first(), key)
    }
}

/// Relies on `Ini::new`: a document holding only an empty general section.
pub assume_specification[ ini::Ini::new ]() -> (r: ini::Ini)
    ensures
        ini_sections(r) == seq![(None::<Seq<char>>, Seq::<(Seq<char>, Seq<char>)>::empty())],
;

/// Relies on `Ini::load_from_str`, which reads a text with quotes and escapes enabled.
#[verifier::external_body]
pub(crate) fn load_ini(text: &str) -> (r: Result<ini::Ini, ini::ParseError>)
    ensures
        r is Ok <==> ini_parse(text@) is Some,
        r is Ok ==> ini_sections(r->Ok_0) == ini_parse(text@)->0,
{
    ini::Ini::load_from_str(text)
}

/// Relies on `Ini::section`: the first section with that name.
#[verifier::external_body]
pub(crate) fn find_section<'a>(doc: &'a ini::Ini, name: &str) -> (r: Option<&'a ini::Properties>)
    ensures
        r is Some <==> section_index(ini_sections(*doc), name@) >= 0,
        r is Some ==> property_pairs(*r->0) == ini_sections(*doc)[section_index(
            ini_sections(*doc),
            name@,
        )].1,
{
    doc.section(Some(name))
}

/// Relies on `Properties::iter`: every pair of the section, in order.
#[verifier::external_body]
pub(crate) fn section_pairs(props: &ini::Properties) -> (r: Vec<(String, String)>)
    ensures
        pairs_view(r@) == property_pairs(*props),
{
    props.iter().map(|(k, v)| (k.to_string(), v.to_string())).collect()
}

/// Relies on `Ini::set_to`: a section that is missing is added at the end;
/// in the section, earlier pairs with that key are dropped and the new pair
/// comes last.
#[verifier::external_body]
pub(crate) fn set_entry(doc: &mut ini::Ini, section: &str, key: &str, value: &str)
    ensures
        section_index(ini_sections(*old(doc)), section@) < 0 ==> ini_sections(*final(doc))
            == ini_sections(*old(doc)).push((Some(section@), seq![(key@, value@)])),
        forall|i: int|
            only_section_at(ini_sections(*old(doc)), section@, i) ==> ini_sections(*final(doc))
                == ini_sections(*old(doc)).update(
                i,
                (Some(section@), without_key(ini_sections(*old(doc))[i].1, key@).push((key@, value@))),
            ),
{
    doc.set_to(Some(section), key.to_string(), value.to_string())
}

/// Relies on `Ini::write_to`, writing into memory, which cannot fail. Lines
/// end with the platform's separator, `\n` on the Unix desktops served here.
#[verifier::external_body]
pub(crate) fn write_ini(doc: &ini::Ini) -> (r: Vec<u8>)
    ensures
        r@ == ini_written(ini_sections(*doc)),
{
    let mut out: Vec<u8> = Vec::new();
    let _ = doc.write_to(&mut out);
    out
}

} // verus!
