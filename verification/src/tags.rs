//! Tag constructors: each fills exactly the payload field its name says,
//! leaving the rest empty.

use vstd::prelude::*;

use crate::entity::{MusicID, SpecTag, Tag, TagKey, Vector};

verus! {

impl Tag {
    /// A bare ownership/marker tag: no payload at all.
    pub fn new_key(id: MusicID, key: TagKey) -> (t: Tag)
        ensures
            t@ == (SpecTag {
                music_id: id.0 as int,
                key: key@,
                text: None,
                integer: None,
                date: None,
                vector: None,
            }),
    {
        Tag { music_id: id, key, text: None, integer: None, date: None, vector: None }
    }

    /// A tag holding a text payload.
    pub fn new_text(id: MusicID, key: TagKey, value: String) -> (t: Tag)
        ensures
            t@ == (SpecTag {
                music_id: id.0 as int,
                key: key@,
                text: Some(value@),
                integer: None,
                date: None,
                vector: None,
            }),
    {
        Tag { music_id: id, key, text: Some(value), integer: None, date: None, vector: None }
    }

    /// A tag holding an integer payload, as the ordering engine writes.
    pub fn new_integer(id: MusicID, key: TagKey, value: i32) -> (t: Tag)
        ensures
            t@ == (SpecTag {
                music_id: id.0 as int,
                key: key@,
                text: None,
                integer: Some(value as int),
                date: None,
                vector: None,
            }),
    {
        Tag { music_id: id, key, text: None, integer: Some(value), date: None, vector: None }
    }

    /// A tag holding a vector payload.
    pub fn new_vector(id: MusicID, key: TagKey, value: Vector) -> (t: Tag)
        ensures
            t@ == (SpecTag {
                music_id: id.0 as int,
                key: key@,
                text: None,
                integer: None,
                date: None,
                vector: Some(value@),
            }),
    {
        Tag { music_id: id, key, text: None, integer: None, date: None, vector: Some(value) }
    }
}

} // verus!

verus! {

use crate::strutil::{parse_i32, spec_int_str, spec_parse_i32, i32_to_string};
use vstd::string::StringExecFns;

/// A parsed date, held opaquely: the generic timezone parameter of the
/// date crate's type is more than a type declaration here can carry, so
/// the value lives behind this struct instead.
#[verifier::external_body]
struct ParsedDate {
    inner: chrono::DateTime<chrono::Utc>,
}

/// Relies on dateparser's `parse`: reads a date out of a free-form string
/// when it can. Some of its formats complete missing parts from the clock
/// or the local zone, so nothing is promised of the value.
#[verifier::external_body]
fn parse_date(s: &str) -> Option<ParsedDate> {
    match dateparser::parse(s) {
        Ok(d) => Some(ParsedDate { inner: d }),
        Err(_) => None,
    }
}

/// Relies on chrono's `to_rfc3339`: renders the parsed date in the form
/// the tag column stores.
#[verifier::external_body]
fn rfc3339_of(d: &ParsedDate) -> String {
    d.inner.to_rfc3339()
}

/// The stored date string for a bare year: midnight UTC on January 2nd.
pub open spec fn spec_year_date_str(v: int) -> Seq<char> {
    spec_int_str(v) + "-01-02T00:00:00+00:00"@
}

impl Tag {
    /// A text tag that also carries whatever can be read out of the text:
    /// the integer it spells, and a date. A year between 1001 and 2099
    /// becomes that year's date directly; anything else is left to the
    /// date parser.
    pub fn new_parse(id: MusicID, key: TagKey, value: String) -> (t: Tag)
        ensures
            t@.music_id == id.0 as int,
            t@.key == key@,
            t@.text == Some(value@),
            t@.integer == spec_parse_i32(value@),
            t@.vector is None,
            (match spec_parse_i32(value@) {
                Some(v) => (1000 < v < 2100) ==> t@.date == Some(spec_year_date_str(v)),
                None => true,
            }),
    {
        let integer = parse_i32(value.as_str());
        let mut date: Option<String> = match parse_date(value.as_str()) {
            Some(d) => Some(rfc3339_of(&d)),
            None => None,
        };
        if let Some(v) = integer {
            if v < 2100 && v > 1000 {
                date = Some(i32_to_string(v).concat("-01-02T00:00:00+00:00"));
            }
        }
        Tag { music_id: id, key, text: Some(value), integer, date, vector: None }
    }
}

} // verus!

verus! {

use crate::store::Store;

impl Tag {
    /// The tag a creation request stores: an ownership tag that brought
    /// no sort position is placed one hundred past the largest sortkey of
    /// its library, so new members land at the end with room in between.
    pub fn with_default_sortkey(c: &Store, tag: Tag) -> (r: Tag)
        requires
            forall|i: int|
                0 <= i < c@.tags.len() && (#[trigger] c@.tags[i]).key == tag@.key ==> (
                match c@.tags[i].integer {
                    Some(w) => w <= i32::MAX - 100,
                    None => true,
                }),
        ensures
            r@.music_id == tag@.music_id,
            r@.key == tag@.key,
            r@.text == tag@.text,
            r@.date == tag@.date,
            r@.vector == tag@.vector,
            (if tag@.key is UserLibrary && tag@.integer is None {
                match r@.integer {
                    Some(v) => {
                        &&& (forall|i: int|
                            0 <= i < c@.tags.len() && (#[trigger] c@.tags[i]).key == tag@.key
                                ==> (match c@.tags[i].integer {
                                Some(w) => w + 100 <= v,
                                None => true,
                            }))
                        &&& (v == 100 || exists|i: int|
                            0 <= i < c@.tags.len() && (#[trigger] c@.tags[i]).key == tag@.key
                                && c@.tags[i].integer == Some(v - 100))
                    },
                    None => false,
                }
            } else {
                r@.integer == tag@.integer
            }),
    {
        let is_library = match &tag.key {
            TagKey::UserLibrary(_) => true,
            _ => false,
        };
        if is_library && tag.integer.is_none() {
            let base = match Tag::max_integer_by_key(c, &tag.key) {
                Some(m) => m,
                None => 0,
            };
            Tag {
                music_id: tag.music_id,
                key: tag.key,
                text: tag.text,
                integer: Some(base + 100),
                date: tag.date,
                vector: tag.vector,
            }
        } else {
            tag
        }
    }
}

} // verus!
