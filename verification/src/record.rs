//! Rows as the `csv` crate hands them over.
//!
//! A [`csv::StringRecord`] is opaque to Verus. What the library relies on
//! is stated here and believed without proof: a record holds a sequence of
//! texts, `len` counts them and `get` hands one out.

use vstd::prelude::*;

verus! {

/// `csv::StringRecord`, a row of text fields. Nothing is known of its
/// inside; [`record_fields`] names what it holds.
#[verifier::external_type_specification]
#[verifier::external_body]
pub struct ExStringRecord(csv::StringRecord);

/// The fields that a record holds, in order.
pub uninterp spec fn record_fields(record: csv::StringRecord) -> Seq<Seq<char>>;

/// `csv::StringRecord::len` returns the number of fields of the record.
pub assume_specification[ csv::StringRecord::len ](record: &csv::StringRecord) -> (len: usize)
    ensures
        len == record_fields(*record).len(),
;

/// `csv::StringRecord::get` returns the field at index `i`, and `None`
/// where the record has no field at that index.
pub assume_specification[ csv::StringRecord::get ](record: &csv::StringRecord, i: usize) -> (field:
    Option<&str>)
    ensures
        match field {
            Some(text) => {
                &&& i < record_fields(*record).len()
                &&& text@ == record_fields(*record)[i as int]
            },
            None => i >= record_fields(*record).len(),
        },
;

/// The fields of a record as owned texts.
pub fn record_row(record: &csv::StringRecord) -> (row: Vec<String>)
    ensures
        row.deep_view() == record_fields(*record),
{
    let mut row: Vec<String> = Vec::new();
    let mut i: usize = 0;
    while i < record.len()
        invariant
            i <= record_fields(*record).len(),
            row.len() == i,
            forall|k: int| 0 <= k < i ==> (#[trigger] row[k])@ == record_fields(*record)[k],
        decreases record_fields(*record).len() - i,
    {
        if let Some(field) = record.get(i) {
            row.push(field.to_owned());
        }
        i += 1;
    }
    row
}

} // verus!
