//! One contact record and the parser for a single line of the data file.

use vstd::prelude::*;
use crate::text::{chars_of, int_value, split_chars, split_on, string_of};
use std::num::ParseIntError;

verus! {

/// A contact: a unique id, a non-empty name and an optional email.
#[derive(Debug)]
pub struct Record {
    pub id: i64,
    pub name: String,
    pub email: Option<String>,
}

/// What a record holds, as plain values.
pub struct RecordView {
    pub id: i64,
    pub name: Seq<char>,
    pub email: Option<Seq<char>>,
}

pub open spec fn opt_view(e: Option<String>) -> Option<Seq<char>> {
    match e {
        Some(s) => Some(s@),
        None => None,
    }
}

impl View for Record {
    type V = RecordView;

    open spec fn view(&self) -> RecordView {
        RecordView { id: self.id, name: self.name@, email: opt_view(self.email) }
    }
}

#[verifier::external_type_specification]
#[verifier::external_body]
pub struct ExParseIntError(ParseIntError);

/// Why a line does not hold a record.
#[derive(Debug)]
pub enum ParseError {
    /// The id field is not a base-ten integer that fits in an `i64`.
    InvalidId(ParseIntError),
    /// The line is empty.
    EmptyRecord,
    /// A required field is absent or empty; it carries the field's name.
    MissingField(String),
}

/// The field, or nothing where it is absent or empty.
pub open spec fn optional_field(f: Seq<Seq<char>>, i: int) -> Option<Seq<char>> {
    if i < f.len() && f[i].len() > 0 {
        Some(f[i])
    } else {
        None
    }
}

/// The record that a non-empty line spells, if any: an integer id in the
/// first comma-separated field, a non-empty name in the second, and an
/// email, absent where the third field is absent or empty.
pub open spec fn record_of_line(line: Seq<char>) -> Option<RecordView> {
    let f = split_on(line, ',');
    if line.len() > 0 && int_value(f[0]) is Some && f.len() > 1 && f[1].len() > 0 {
        Some(RecordView { id: int_value(f[0])->0 as i64, name: f[1], email: optional_field(f, 2) })
    } else {
        None
    }
}

/// Relies on `i64::from_str_radix` in base ten: it accepts exactly an
/// optional sign followed by one or more ASCII digits whose value fits.
#[verifier::external_body]
fn parse_i64(s: &str) -> (r: Result<i64, ParseIntError>)
    ensures
        r is Ok <==> int_value(s@) is Some,
        r matches Ok(v) ==> int_value(s@) == Some(v as int),
{
    i64::from_str_radix(s, 10)
}

/// Parses one line: `id,name[,email[,...]]`.
pub fn parse_record(record: &str) -> (r: Result<Record, ParseError>)
    ensures
        record@.len() == 0 <==> r matches Err(ParseError::EmptyRecord),
        r is Ok <==> record_of_line(record@) is Some,
        r matches Ok(rec) ==> record_of_line(record@) == Some(rec@),
        r matches Err(ParseError::InvalidId(_)) <==> (record@.len() > 0 && int_value(
            split_on(record@, ',')[0],
        ) is None),
        r matches Err(ParseError::MissingField(m)) ==> m@ == seq!['n', 'a', 'm', 'e'],
{
    let line = chars_of(record);
    if line.len() == 0 {
        return Err(ParseError::EmptyRecord);
    }
    let fields = split_chars(&line, ',');
    let ghost f = split_on(record@, ',');
    proof {
        crate::text::lemma_split_len(record@, ',');
        assert(fields@.len() == f.len());
    }
    assert(fields@.map_values(|v: Vec<char>| v@)[0] == fields@[0]@);
    let id_text = string_of(&fields[0]);
    let id = match parse_i64(id_text.as_str()) {
        Ok(v) => v,
        Err(e) => return Err(ParseError::InvalidId(e)),
    };
    if fields.len() < 2 || fields[1].len() == 0 {
        return Err(ParseError::MissingField(string_of(&vec!['n', 'a', 'm', 'e'])));
    }
    assert(fields@.map_values(|v: Vec<char>| v@)[1] == fields@[1]@);
    let name = string_of(&fields[1]);
    let email = if fields.len() > 2 && fields[2].len() > 0 {
        assert(fields@.map_values(|v: Vec<char>| v@)[2] == fields@[2]@);
        Some(string_of(&fields[2]))
    } else {
        None
    };
    let rec = Record { id, name, email };
    assert(rec@ == RecordView { id, name: f[1], email: optional_field(f, 2) });
    Ok(rec)
}

} // verus!
