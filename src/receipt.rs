use chrono::{Datelike, Timelike};
use vstd::prelude::*;

verus! {

/// The encoding of a purchase timestamp: an absolute date-time with
/// seconds precision, such as `2024-01-15T10:00:00Z`.
pub const TIMESTAMP_FORMAT: &'static str = "%Y-%m-%dT%H:%M:%SZ";

/// A summary record of one purchase. The amount is held in hundredths of
/// the currency unit, so that totals are exact.
#[derive(Clone, Debug)]
pub struct Receipt {
    pub key: String,
    pub store: String,
    pub purchase_date: String,
    pub amount: u64,
}

impl Receipt {
    pub fn new(key: String, store: String, purchase_date: String, amount: u64) -> (r: Receipt)
        ensures
            r == (Receipt { key, store, purchase_date, amount }),
    {
        Receipt { key, store, purchase_date, amount }
    }

    /// A field-by-field copy of this receipt.
    pub fn copied(&self) -> (r: Receipt)
        ensures
            r == *self,
    {
        Receipt {
            key: self.key.clone(),
            store: self.store.clone(),
            purchase_date: self.purchase_date.clone(),
            amount: self.amount,
        }
    }
}

/// The calendar fields of a parsed purchase timestamp.
#[derive(Clone, Copy, Debug, PartialEq, Eq)]
pub struct Timestamp {
    pub year: i32,
    pub month: u32,
    pub day: u32,
    pub hour: u32,
    pub minute: u32,
    pub second: u32,
}

impl Timestamp {
    pub open spec fn fields(self) -> (int, int, int, int, int, int) {
        (
            self.year as int,
            self.month as int,
            self.day as int,
            self.hour as int,
            self.minute as int,
            self.second as int,
        )
    }
}

/// The fields (year, month, day, hour, minute, second) that chrono reads
/// from `text` under the format `fmt`, or `None` where it rejects the text.
pub uninterp spec fn parsed_date_time(text: Seq<char>, fmt: Seq<char>) -> Option<
    (int, int, int, int, int, int),
>;

/// Relies on chrono::NaiveDateTime::parse_from_str: its result depends on the
/// text and the format alone, and a date it returns has a month in 1..=12
/// (Datelike::month).
#[verifier::external_body]
pub(crate) fn parse_date_time(text: &str, fmt: &str) -> (r: Option<Timestamp>)
    ensures
        match r {
            Some(t) => parsed_date_time(text@, fmt@) == Some(t.fields()) && 1 <= t.month <= 12,
            None => parsed_date_time(text@, fmt@) is None,
        },
{
    match chrono::NaiveDateTime::parse_from_str(text, fmt) {
        Ok(d) => Some(
            Timestamp {
                year: d.year(),
                month: d.month(),
                day: d.day(),
                hour: d.hour(),
                minute: d.minute(),
                second: d.second(),
            },
        ),
        Err(_) => None,
    }
}

} // verus!
