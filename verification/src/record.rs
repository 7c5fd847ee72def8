//! The record that a payload decodes to.

use crate::date::{date_text, invalid_date, is_iso_date};
use crate::elements::{element_map, ElementMap};
use crate::gender::{gender_of, Gender};
use crate::height::{height_text, invalid_height, is_inches};
use crate::laws::lemma_payload_well_formed;
use crate::text::is_trimmed;
use vstd::prelude::*;

verus! {

/// What a payload states about a card and its holder. A field whose element
/// the payload lacks is empty, and the gender is then unspecified.
pub struct ParsedData {
    pub vehicle_class: String,
    pub driving_privileges: String,
    pub additional_privileges: String,
    pub expiration_date: String,
    pub last_name: String,
    pub first_name: String,
    pub middle_name: String,
    pub issue_date: String,
    pub date_of_birth: String,
    pub gender: Gender,
    pub eye_color: String,
    pub height: String,
    pub street: String,
    pub city: String,
    pub state: String,
    pub postal_code: String,
}

/// A record as contracts see it: each text field as its characters.
pub struct Record {
    pub vehicle_class: Seq<char>,
    pub driving_privileges: Seq<char>,
    pub additional_privileges: Seq<char>,
    pub expiration_date: Seq<char>,
    pub last_name: Seq<char>,
    pub first_name: Seq<char>,
    pub middle_name: Seq<char>,
    pub issue_date: Seq<char>,
    pub date_of_birth: Seq<char>,
    pub gender: Gender,
    pub eye_color: Seq<char>,
    pub height: Seq<char>,
    pub street: Seq<char>,
    pub city: Seq<char>,
    pub state: Seq<char>,
    pub postal_code: Seq<char>,
}

impl View for ParsedData {
    type V = Record;

    open spec fn view(&self) -> Record {
        Record {
            vehicle_class: self.vehicle_class@,
            driving_privileges: self.driving_privileges@,
            additional_privileges: self.additional_privileges@,
            expiration_date: self.expiration_date@,
            last_name: self.last_name@,
            first_name: self.first_name@,
            middle_name: self.middle_name@,
            issue_date: self.issue_date@,
            date_of_birth: self.date_of_birth@,
            gender: self.gender,
            eye_color: self.eye_color@,
            height: self.height@,
            street: self.street@,
            city: self.city@,
            state: self.state@,
            postal_code: self.postal_code@,
        }
    }
}

/// The text of the element `id` in `elements`; empty where it is missing.
pub open spec fn text_field(elements: Map<Seq<char>, Seq<char>>, id: Seq<char>) -> Seq<char> {
    if elements.contains_key(id) {
        elements[id]
    } else {
        Seq::empty()
    }
}

/// The date that the element `id` states in `elements`; empty where it is
/// missing.
pub open spec fn date_field(elements: Map<Seq<char>, Seq<char>>, id: Seq<char>) -> Seq<char> {
    if elements.contains_key(id) {
        date_text(elements[id])
    } else {
        Seq::empty()
    }
}

/// The height that the element `id` states in `elements`; empty where it is
/// missing.
pub open spec fn height_field(elements: Map<Seq<char>, Seq<char>>, id: Seq<char>) -> Seq<char> {
    if elements.contains_key(id) {
        height_text(elements[id])
    } else {
        Seq::empty()
    }
}

/// The gender that the element `id` states in `elements`; unspecified where
/// it is missing.
pub open spec fn gender_field(elements: Map<Seq<char>, Seq<char>>, id: Seq<char>) -> Gender {
    if elements.contains_key(id) {
        gender_of(elements[id])
    } else {
        Gender::UNSPECIFIED
    }
}

/// The record that `elements` make: which element fills which field, and
/// how its value is read.
pub open spec fn record_of(elements: Map<Seq<char>, Seq<char>>) -> Record {
    Record {
        vehicle_class: text_field(elements, "DCA"@),
        driving_privileges: text_field(elements, "DCB"@),
        additional_privileges: text_field(elements, "DCD"@),
        expiration_date: date_field(elements, "DBA"@),
        last_name: text_field(elements, "DCS"@),
        first_name: text_field(elements, "DAC"@),
        middle_name: text_field(elements, "DAD"@),
        issue_date: date_field(elements, "DBD"@),
        date_of_birth: date_field(elements, "DBB"@),
        gender: gender_field(elements, "DBC"@),
        eye_color: text_field(elements, "DAY"@),
        height: height_field(elements, "DAU"@),
        street: text_field(elements, "DAG"@),
        city: text_field(elements, "DAI"@),
        state: text_field(elements, "DAJ"@),
        postal_code: text_field(elements, "DAK"@),
    }
}

/// The record of a payload without elements: every text is empty and the
/// gender is unspecified.
pub open spec fn empty_record() -> Record {
    Record {
        vehicle_class: Seq::empty(),
        driving_privileges: Seq::empty(),
        additional_privileges: Seq::empty(),
        expiration_date: Seq::empty(),
        last_name: Seq::empty(),
        first_name: Seq::empty(),
        middle_name: Seq::empty(),
        issue_date: Seq::empty(),
        date_of_birth: Seq::empty(),
        gender: Gender::UNSPECIFIED,
        eye_color: Seq::empty(),
        height: Seq::empty(),
        street: Seq::empty(),
        city: Seq::empty(),
        state: Seq::empty(),
        postal_code: Seq::empty(),
    }
}

/// Whether `s` is empty, a calendar date in form, or the text that stands
/// for an invalid date.
pub open spec fn is_date_field(s: Seq<char>) -> bool {
    s.len() == 0 || s == invalid_date() || is_iso_date(s)
}

/// Whether `s` is empty, a length in inches in form, or the text that stands
/// for an invalid height.
pub open spec fn is_height_field(s: Seq<char>) -> bool {
    s.len() == 0 || s == invalid_height() || is_inches(s)
}

impl Record {
    /// Whether each field has the form that its kind asks for: a text without
    /// whitespace around it, a date, a height.
    pub open spec fn well_formed(self) -> bool {
        &&& is_trimmed(self.vehicle_class)
        &&& is_trimmed(self.driving_privileges)
        &&& is_trimmed(self.additional_privileges)
        &&& is_date_field(self.expiration_date)
        &&& is_trimmed(self.last_name)
        &&& is_trimmed(self.first_name)
        &&& is_trimmed(self.middle_name)
        &&& is_date_field(self.issue_date)
        &&& is_date_field(self.date_of_birth)
        &&& is_trimmed(self.eye_color)
        &&& is_height_field(self.height)
        &&& is_trimmed(self.street)
        &&& is_trimmed(self.city)
        &&& is_trimmed(self.state)
        &&& is_trimmed(self.postal_code)
    }
}

/// Whether a field of the record is filled from the element `id`.
pub open spec fn is_used(id: Seq<char>) -> bool {
    ||| id == "DCA"@
    ||| id == "DCB"@
    ||| id == "DCD"@
    ||| id == "DBA"@
    ||| id == "DCS"@
    ||| id == "DAC"@
    ||| id == "DAD"@
    ||| id == "DBD"@
    ||| id == "DBB"@
    ||| id == "DBC"@
    ||| id == "DAY"@
    ||| id == "DAU"@
    ||| id == "DAG"@
    ||| id == "DAI"@
    ||| id == "DAJ"@
    ||| id == "DAK"@
}

/// Whether `one` and `other` hold the same used elements with the same
/// values.
pub open spec fn same_used(
    one: Map<Seq<char>, Seq<char>>,
    other: Map<Seq<char>, Seq<char>>,
) -> bool {
    forall|id: Seq<char>|
        #![trigger one.contains_key(id)]
        #![trigger other.contains_key(id)]
        is_used(id) ==> one.contains_key(id) == other.contains_key(id) && (one.contains_key(id)
            ==> one[id] == other[id])
}

/// The text of the element `id`.
fn text_of(elements: &ElementMap, id: &str) -> (text: String)
    ensures
        text@ == text_field(elements@, id@),
{
    match elements.get(id) {
        Some(value) => value.clone(),
        None => String::new(),
    }
}

/// The date that the element `id` states.
fn date_of(elements: &ElementMap, id: &str) -> (text: String)
    ensures
        text@ == date_field(elements@, id@),
{
    match elements.get(id) {
        Some(value) => ParsedData::standardize_date(value.as_str()),
        None => String::new(),
    }
}

/// The height that the element `id` states.
fn height_of(elements: &ElementMap, id: &str) -> (text: String)
    ensures
        text@ == height_field(elements@, id@),
{
    match elements.get(id) {
        Some(value) => ParsedData::convert_height(value.as_str()),
        None => String::new(),
    }
}

/// The gender that the element `id` states.
fn gender_in(elements: &ElementMap, id: &str) -> (gender: Gender)
    ensures
        gender == gender_field(elements@, id@),
{
    match elements.get(id) {
        Some(value) => Gender::decode(value.as_str()),
        None => Gender::UNSPECIFIED,
    }
}

impl ParsedData {
    /// Makes the record of the elements of a payload.
    pub fn from_elements(elements: &ElementMap) -> (data: ParsedData)
        ensures
            data@ == record_of(elements@),
    {
        ParsedData {
            vehicle_class: text_of(elements, "DCA"),
            driving_privileges: text_of(elements, "DCB"),
            additional_privileges: text_of(elements, "DCD"),
            expiration_date: date_of(elements, "DBA"),
            last_name: text_of(elements, "DCS"),
            first_name: text_of(elements, "DAC"),
            middle_name: text_of(elements, "DAD"),
            issue_date: date_of(elements, "DBD"),
            date_of_birth: date_of(elements, "DBB"),
            gender: gender_in(elements, "DBC"),
            eye_color: text_of(elements, "DAY"),
            height: height_of(elements, "DAU"),
            street: text_of(elements, "DAG"),
            city: text_of(elements, "DAI"),
            state: text_of(elements, "DAJ"),
            postal_code: text_of(elements, "DAK"),
        }
    }

    /// Decodes the payload `raw_data`: its lines are taken as elements, and
    /// the elements make the record. Every payload has a record, and the
    /// record depends on nothing but the characters of the payload.
    pub fn from_raw_data(raw_data: &str) -> (data: ParsedData)
        ensures
            data@ == record_of(element_map(raw_data@)),
            data@.well_formed(),
    {
        let elements = ElementMap::from_raw_data(raw_data);
        proof {
            lemma_payload_well_formed(raw_data@);
        }
        ParsedData::from_elements(&elements)
    }
}

} // verus!
