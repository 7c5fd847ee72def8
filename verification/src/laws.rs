//! What holds of every payload and of the record it decodes to.

use crate::date::lemma_date_form;
use crate::elements::{
    element_id, element_map, element_value, elements_of, ids_distinct, is_element,
    last_line_of, lemma_elements_of_concat, lemma_order_of_lines, lemma_order_without_duplicates,
    lemma_values_trimmed, lines_of,
};
use crate::height::lemma_height_form;
use crate::record::{
    date_field, empty_record, gender_field, height_field, is_used, record_of, same_used,
    text_field,
};
use crate::text::is_trimmed;
use vstd::prelude::*;

verus! {

/// A payload without characters states no element, and its record is the
/// empty one.
pub proof fn lemma_empty_payload()
    ensures
        element_map(Seq::empty()) == Map::<Seq<char>, Seq<char>>::empty(),
        record_of(element_map(Seq::empty())) == empty_record(),
{
}

/// Elements that agree in what the record uses fill a field from a used
/// element alike.
proof fn lemma_same_field(
    one: Map<Seq<char>, Seq<char>>,
    other: Map<Seq<char>, Seq<char>>,
    id: Seq<char>,
)
    requires
        same_used(one, other),
        is_used(id),
    ensures
        text_field(one, id) == text_field(other, id),
        date_field(one, id) == date_field(other, id),
        height_field(one, id) == height_field(other, id),
        gender_field(one, id) == gender_field(other, id),
{
    assert(one.contains_key(id) == other.contains_key(id));
}

/// The record depends on the elements it uses alone: elements that differ
/// only in what the record does not use make the same record.
pub proof fn lemma_unused_elements(
    one: Map<Seq<char>, Seq<char>>,
    other: Map<Seq<char>, Seq<char>>,
)
    requires
        same_used(one, other),
    ensures
        record_of(one) == record_of(other),
{
    lemma_same_field(one, other, "DCA"@);
    lemma_same_field(one, other, "DCB"@);
    lemma_same_field(one, other, "DCD"@);
    lemma_same_field(one, other, "DBA"@);
    lemma_same_field(one, other, "DCS"@);
    lemma_same_field(one, other, "DAC"@);
    lemma_same_field(one, other, "DAD"@);
    lemma_same_field(one, other, "DBD"@);
    lemma_same_field(one, other, "DBB"@);
    lemma_same_field(one, other, "DBC"@);
    lemma_same_field(one, other, "DAY"@);
    lemma_same_field(one, other, "DAU"@);
    lemma_same_field(one, other, "DAG"@);
    lemma_same_field(one, other, "DAI"@);
    lemma_same_field(one, other, "DAJ"@);
    lemma_same_field(one, other, "DAK"@);
}

/// A line that states no element the record uses can be taken out of a
/// payload, or put into it, without a change to the record.
pub proof fn lemma_unused_line(
    before: Seq<Seq<char>>,
    line: Seq<char>,
    after: Seq<Seq<char>>,
)
    requires
        !(is_element(line) && is_used(element_id(line))),
    ensures
        record_of(elements_of(before + seq![line] + after)) == record_of(
            elements_of(before + after),
        ),
{
    let with = elements_of(before + seq![line] + after);
    let without = elements_of(before + after);
    lemma_elements_of_concat(before + seq![line], after);
    lemma_elements_of_concat(before, seq![line]);
    lemma_elements_of_concat(before, after);
    assert(seq![line].drop_last().len() == 0);
    assert(elements_of(seq![line].drop_last()) == Map::<Seq<char>, Seq<char>>::empty());
    assert forall|id: Seq<char>|
        #![trigger with.contains_key(id)]
        #![trigger without.contains_key(id)]
        is_used(id) implies with.contains_key(id) == without.contains_key(id) && (
    with.contains_key(id) ==> with[id] == without[id]) by {
        assert(!elements_of(seq![line]).contains_key(id));
    }
    lemma_unused_elements(with, without);
}

/// The record of elements whose values have no whitespace around them is
/// well formed.
pub proof fn lemma_record_well_formed(elements: Map<Seq<char>, Seq<char>>)
    requires
        forall|id: Seq<char>| #[trigger] elements.contains_key(id) ==> is_trimmed(elements[id]),
    ensures
        record_of(elements).well_formed(),
{
    assert(is_trimmed(Seq::<char>::empty()));
    if elements.contains_key("DBA"@) {
        lemma_date_form(elements["DBA"@]);
    }
    if elements.contains_key("DBD"@) {
        lemma_date_form(elements["DBD"@]);
    }
    if elements.contains_key("DBB"@) {
        lemma_date_form(elements["DBB"@]);
    }
    if elements.contains_key("DAU"@) {
        lemma_height_form(elements["DAU"@]);
    }
}

/// The record of a payload is well formed, whatever the payload.
pub proof fn lemma_payload_well_formed(raw: Seq<char>)
    ensures
        record_of(element_map(raw)).well_formed(),
{
    lemma_values_trimmed(lines_of(raw));
    lemma_record_well_formed(element_map(raw));
}

/// A payload decodes to the same record with or without a line that states
/// no element the record uses.
pub proof fn lemma_unused_payload_line(
    one: Seq<char>,
    other: Seq<char>,
    before: Seq<Seq<char>>,
    line: Seq<char>,
    after: Seq<Seq<char>>,
)
    requires
        lines_of(one) == before + seq![line] + after,
        lines_of(other) == before + after,
        !(is_element(line) && is_used(element_id(line))),
    ensures
        record_of(element_map(one)) == record_of(element_map(other)),
{
    lemma_unused_line(before, line, after);
}

/// Payloads with the same lines in another order decode to the same record
/// if, for each element, the last line that states it gives the same value
/// in both.
pub proof fn lemma_order_of_payload_lines(one: Seq<char>, other: Seq<char>)
    requires
        lines_of(one).to_multiset() == lines_of(other).to_multiset(),
        forall|id: Seq<char>|
            #![trigger last_line_of(lines_of(one), id)]
            last_line_of(lines_of(one), id) >= 0 && last_line_of(lines_of(other), id) >= 0
                ==> element_value(lines_of(one)[last_line_of(lines_of(one), id)]) == element_value(
                lines_of(other)[last_line_of(lines_of(other), id)],
            ),
    ensures
        element_map(one) == element_map(other),
        record_of(element_map(one)) == record_of(element_map(other)),
{
    lemma_order_of_lines(lines_of(one), lines_of(other));
}

/// Payloads with the same lines in another order decode to the same record
/// where no two lines state one element.
pub proof fn lemma_order_of_distinct_payload_lines(one: Seq<char>, other: Seq<char>)
    requires
        lines_of(one).to_multiset() == lines_of(other).to_multiset(),
        ids_distinct(lines_of(one)),
    ensures
        element_map(one) == element_map(other),
        record_of(element_map(one)) == record_of(element_map(other)),
{
    lemma_order_without_duplicates(lines_of(one), lines_of(other));
}

} // verus!
