//! The contents of an `ini::Ini` as plain values, and the calls into the
//! `ini` crate that the configuration logic makes.
//!
//! An `Ini` is an ordered list of sections; a section has an optional name
//! (`None` is the general section) and an ordered list of `key=value`
//! properties. Section names and keys may repeat; lookups by name go to the
//! first section with that name, as `ListOrderedMultimap::get` does.
use vstd::prelude::*;
use ini::Ini;
use ini::ParseError;

verus! {

#[verifier::external_type_specification]
#[verifier::external_body]
pub struct ExIni(Ini);

#[verifier::external_type_specification]
#[verifier::external_body]
pub struct ExParseError(ParseError);

/// The properties of one section, in iteration order.
pub type Props = Seq<(Seq<char>, Seq<char>)>;

/// All sections of an ini document, in iteration order.
pub type Sections = Seq<(Option<Seq<char>>, Props)>;

/// What an `Ini` holds: its sections in order, each with its properties in order.
pub uninterp spec fn ini_sections(ini: Ini) -> Seq<(Option<Seq<char>>, Seq<(Seq<char>, Seq<char>)>)>;

/// What `Ini::load_from_str` makes of a text: the sections of the document,
/// or `None` where the text is not a well-formed ini document.
pub uninterp spec fn parsed_ini(text: Seq<char>) -> Option<Seq<(Option<Seq<char>>, Seq<(Seq<char>, Seq<char>)>)>>;

/// A line end as written: `\r\n`.
pub open spec fn crlf() -> Seq<char> {
    seq!['\r', '\n']
}

/// The lowercase hexadecimal digit of `n` (below 16).
pub open spec fn hex_digit(n: int) -> char {
    if n < 10 {
        ('0' as int + n) as char
    } else {
        ('a' as int + n - 10) as char
    }
}

/// How the basic escape policy writes one character: a backslash and the
/// ASCII control characters are escaped, everything else is written as is.
pub open spec fn escape_char(c: char) -> Seq<char> {
    if c == '\\' {
        seq!['\\', '\\']
    } else if c == '\0' {
        seq!['\\', '0']
    } else if c == '\x07' {
        seq!['\\', 'a']
    } else if c == '\x08' {
        seq!['\\', 'b']
    } else if c == '\x0c' {
        seq!['\\', 'f']
    } else if c == '\x0b' {
        seq!['\\', 'v']
    } else if c == '\n' {
        seq!['\\', 'n']
    } else if c == '\t' {
        seq!['\\', 't']
    } else if c == '\r' {
        seq!['\\', 'r']
    } else if (c as int) < 0x20 || c as int == 0x7f {
        seq!['\\', 'x', '0', '0', hex_digit(c as int / 16), hex_digit(c as int % 16)]
    } else {
        seq![c]
    }
}

/// A string as the basic escape policy writes it.
pub open spec fn escaped(s: Seq<char>) -> Seq<char>
    decreases s.len(),
{
    if s.len() == 0 {
        Seq::empty()
    } else {
        escaped(s.drop_last()) + escape_char(s.last())
    }
}

/// The `key=value` lines of some properties.
pub open spec fn props_text(props: Props) -> Seq<char>
    decreases props.len(),
{
    if props.len() == 0 {
        Seq::empty()
    } else {
        props_text(props.drop_last()) + escaped(props.last().0) + seq!['='] + escaped(props.last().1) + crlf()
    }
}

/// Whether some section has a property.
pub open spec fn any_properties(secs: Sections) -> bool {
    exists|i: int| 0 <= i < secs.len() && #[trigger] secs[i].1.len() > 0
}

/// The text that `Ini::write_to_opt` writes with the basic escape policy,
/// `=` between key and value and `\r\n` line ends: each section in turn,
/// an empty line before a section with properties unless none came before,
/// then `[name]` for a named section, then its `key=value` lines.
pub open spec fn ini_text(secs: Sections) -> Seq<char>
    decreases secs.len(),
{
    if secs.len() == 0 {
        Seq::empty()
    } else {
        let prev = secs.drop_last();
        let sec = secs.last();
        let gap = if sec.1.len() > 0 && any_properties(prev) {
            crlf()
        } else {
            Seq::empty()
        };
        let header = match sec.0 {
            Some(name) => seq!['['] + escaped(name) + seq![']'] + crlf(),
            None => Seq::empty(),
        };
        ini_text(prev) + gap + header + props_text(sec.1)
    }
}

/// Index of the first section called `name`, or -1 where there is none.
pub open spec fn section_index(secs: Sections, name: Option<Seq<char>>) -> int
    decreases secs.len(),
{
    if secs.len() == 0 {
        -1
    } else {
        let k = section_index(secs.drop_last(), name);
        if k >= 0 {
            k
        } else if secs.last().0 == name {
            secs.len() - 1
        } else {
            -1
        }
    }
}

/// The properties of the first section called `name`, where there is one.
pub open spec fn section_props(secs: Sections, name: Seq<char>) -> Option<Props> {
    let k = section_index(secs, Some(name));
    if k >= 0 {
        Some(secs[k].1)
    } else {
        None
    }
}

/// Whether some property of `props` has the key `key`.
pub open spec fn has_key(props: Props, key: Seq<char>) -> bool {
    exists|j: int| 0 <= j < props.len() && #[trigger] props[j].0 == key
}

/// `props` after `Properties::insert(key, value)`: every property with that key
/// is dropped and the new pair comes last.
pub open spec fn with_property(props: Props, key: Seq<char>, value: Seq<char>) -> Props {
    if has_key(props, key) {
        props.filter(|p: (Seq<char>, Seq<char>)| p.0 != key).push((key, value))
    } else {
        props.push((key, value))
    }
}

/// `secs` after `Ini::set_to(Some(section), key, value)`: the first section of
/// that name gets the property; where there is none, a new section is added.
pub open spec fn set_property(secs: Sections, section: Seq<char>, key: Seq<char>, value: Seq<char>) -> Sections {
    let k = section_index(secs, Some(section));
    if k >= 0 {
        secs.update(k, (Some(section), with_property(secs[k].1, key, value)))
    } else {
        secs.push((Some(section), seq![(key, value)]))
    }
}

/// `secs` after making sure a section called `section` exists.
pub open spec fn with_section(secs: Sections, section: Seq<char>) -> Sections {
    if section_index(secs, Some(section)) >= 0 {
        secs
    } else {
        secs.push((Some(section), Seq::<(Seq<char>, Seq<char>)>::empty()))
    }
}

/// The plain values of a list of owned string pairs.
pub open spec fn pairs_view(pairs: Seq<(String, String)>) -> Props {
    pairs.map_values(|p: (String, String)| (p.0@, p.1@))
}

pub proof fn lemma_section_index(secs: Sections, name: Option<Seq<char>>)
    ensures
        -1 <= section_index(secs, name) < secs.len(),
        section_index(secs, name) >= 0 ==> secs[section_index(secs, name)].0 == name,
        section_index(secs, name) >= 0 ==> forall|j: int|
            0 <= j < section_index(secs, name) ==> #[trigger] secs[j].0 != name,
        section_index(secs, name) < 0 ==> forall|j: int| 0 <= j < secs.len() ==> #[trigger] secs[j].0 != name,
    decreases secs.len(),
{
    if secs.len() > 0 {
        lemma_section_index(secs.drop_last(), name);
        let p = secs.drop_last();
        assert forall|j: int| 0 <= j < p.len() implies p[j] == #[trigger] secs[j] by {}
    }
}

/// Replacing the properties of a section keeps every section where it was.
pub proof fn lemma_section_index_update(secs: Sections, k: int, props: Props, name: Option<Seq<char>>)
    requires
        0 <= k < secs.len(),
    ensures
        section_index(secs.update(k, (secs[k].0, props)), name) == section_index(secs, name),
{
    let s2 = secs.update(k, (secs[k].0, props));
    lemma_section_index(secs, name);
    lemma_section_index(s2, name);
    let a = section_index(secs, name);
    let b = section_index(s2, name);
    if a >= 0 && b >= 0 {
        assert(secs[b].0 == s2[b].0);
        assert(secs[a].0 == s2[a].0);
    } else if a >= 0 {
        assert(s2[a].0 == secs[a].0);
    } else if b >= 0 {
        assert(s2[b].0 == secs[b].0);
    }
}

/// `Ini::new`: the crate's `Default` for `Ini` makes a document that holds
/// one empty general section and nothing else.
#[verifier::external_body]
pub(crate) fn new_ini() -> (ini: Ini)
    ensures
        ini_sections(ini) == seq![(None::<Seq<char>>, Seq::<(Seq<char>, Seq<char>)>::empty())],
{
    Ini::new()
}

/// `Ini::entry(Some(section)).or_insert(Properties::default())`: where a
/// section of that name exists nothing changes, otherwise an empty one is
/// added after the others (a vacant multimap entry pushes to the back).
#[verifier::external_body]
pub(crate) fn ensure_section(ini: &mut Ini, section: &str)
    ensures
        ini_sections(*final(ini)) == with_section(ini_sections(*old(ini)), section@),
{
    ini.entry(Some(section.to_string())).or_insert(Default::default());
}

/// `Ini::section(Some(section))` followed by `Properties::iter`: the
/// properties of the first section of that name, each copied out as a pair of
/// strings, in iteration order; `None` where no section has that name.
#[verifier::external_body]
pub(crate) fn section_entries(ini: &Ini, section: &str) -> (entries: Option<Vec<(String, String)>>)
    ensures
        match entries {
            None => section_props(ini_sections(*ini), section@) is None,
            Some(v) => section_props(ini_sections(*ini), section@) == Some(pairs_view(v@)),
        },
{
    ini.section(Some(section)).map(|props| props.iter().map(|(k, v)| (k.to_string(), v.to_string())).collect())
}

/// `Ini::set_to(Some(section), key, value)`: the first section of that name
/// (created at the back where missing) loses every property with that key and
/// gets `key=value` as its last property (`ListOrderedMultimap::insert`
/// drops the old values and pushes the new one to the back).
#[verifier::external_body]
pub(crate) fn set_to(ini: &mut Ini, section: &str, key: &str, value: &str)
    ensures
        ini_sections(*final(ini)) == set_property(ini_sections(*old(ini)), section@, key@, value@),
{
    ini.set_to(Some(section), key.to_string(), value.to_string());
}

/// `Ini::load_from_str`: the parsed document, or the parse error. What the
/// parser accepts and what it makes of a text is left to `parsed_ini`.
#[verifier::external_body]
pub(crate) fn load_from_str(text: &str) -> (res: Result<Ini, ParseError>)
    ensures
        match res {
            Ok(ini) => parsed_ini(text@) == Some(ini_sections(ini)),
            Err(_) => parsed_ini(text@) is None,
        },
{
    Ini::load_from_str(text)
}

/// `Ini::write_to_opt` into a byte buffer, with `\r\n` line ends (what
/// `write_to_file` writes on Windows): the UTF-8 encoding of `ini_text`.
/// Writing into a `Vec` cannot fail.
#[verifier::external_body]
pub(crate) fn render(ini: &Ini) -> (bytes: Vec<u8>)
    ensures
        bytes@ == vstd::utf8::encode_utf8(ini_text(ini_sections(*ini))),
{
    let mut bytes: Vec<u8> = Vec::new();
    let opt = ini::WriteOption { line_separator: ini::LineSeparator::CRLF, ..Default::default() };
    let _ = ini.write_to_opt(&mut bytes, opt);
    bytes
}

} // verus!
