//! Deterministic PDF export: the document timestamp and the output check.

use vstd::prelude::*;

use crate::error::Error;

verus! {

/// Earliest Unix timestamp with a calendar date (-9999-01-01T00:00:00Z).
pub const UNIX_TIMESTAMP_MIN: i64 = -377_705_116_800i64;

/// Latest Unix timestamp with a calendar date (9999-12-31T23:59:59Z).
pub const UNIX_TIMESTAMP_MAX: i64 = 253_402_300_799i64;

/// A UTC calendar instant, to the second.
#[derive(Clone, Copy, Debug, PartialEq, Eq, Structural)]
pub struct PdfTimestamp {
    /// Proleptic Gregorian year.
    pub year: i32,
    /// Month, 1 to 12.
    pub month: u8,
    /// Day of the month, 1 to 31.
    pub day: u8,
    /// Hour, 0 to 23.
    pub hour: u8,
    /// Minute, 0 to 59.
    pub minute: u8,
    /// Second, 0 to 59.
    pub second: u8,
}

/// The UTC day, counted from 1970-01-01, that contains a Unix timestamp.
pub open spec fn unix_day(timestamp: i64) -> int {
    (timestamp as int) / 86400
}

/// Proleptic Gregorian (year, month, day) of a day counted from 1970-01-01.
pub open spec fn civil_from_days(days: int) -> (int, int, int) {
    let shifted = days + 719468;
    let era = shifted / 146097;
    let day_of_era = shifted - era * 146097;
    let year_of_era = (day_of_era - day_of_era / 1460 + day_of_era / 36524 - day_of_era / 146096) / 365;
    let day_of_year = day_of_era - (365 * year_of_era + year_of_era / 4 - year_of_era / 100);
    let shifted_month = (5 * day_of_year + 2) / 153;
    let day = day_of_year - (153 * shifted_month + 2) / 5 + 1;
    let month = if shifted_month < 10 { shifted_month + 3 } else { shifted_month - 9 };
    let year = year_of_era + era * 400 + if month <= 2 { 1int } else { 0int };
    (year, month, day)
}

/// Seconds into its UTC day of a Unix timestamp.
pub open spec fn seconds_into_day(timestamp: i64) -> int {
    (timestamp as int) % 86400
}

/// `fields` are the UTC calendar date and time of day of a Unix timestamp.
pub open spec fn is_utc_instant(fields: PdfTimestamp, timestamp: i64) -> bool {
    let (year, month, day) = civil_from_days(unix_day(timestamp));
    &&& fields.year == year
    &&& fields.month == month
    &&& fields.day == day
    &&& fields.hour == seconds_into_day(timestamp) / 3600
    &&& fields.minute == (seconds_into_day(timestamp) % 3600) / 60
    &&& fields.second == seconds_into_day(timestamp) % 60
}

/// `time::OffsetDateTime::from_unix_timestamp`, read back as calendar
/// fields. The crate accepts exactly the timestamps from -9999-01-01 to
/// 9999-12-31 (its default year range); the date is the proleptic
/// Gregorian date of the UTC day, and the second of the day is split with
/// Euclidean division.
#[verifier::external_body]
fn utc_from_unix(timestamp: i64) -> (instant: Option<PdfTimestamp>)
    ensures
        instant is Some <==> UNIX_TIMESTAMP_MIN <= timestamp <= UNIX_TIMESTAMP_MAX,
        instant matches Some(fields) ==> is_utc_instant(fields, timestamp),
{
    match time::OffsetDateTime::from_unix_timestamp(timestamp) {
        Ok(instant) => Some(PdfTimestamp {
            year: instant.year(),
            month: u8::from(instant.month()),
            day: instant.day(),
            hour: instant.hour(),
            minute: instant.minute(),
            second: instant.second(),
        }),
        Err(_) => None,
    }
}

/// The deterministic document timestamp for `source_date_epoch`.
pub fn pdf_timestamp(source_date_epoch: i64) -> (timestamp: Result<PdfTimestamp, Error>)
    ensures
        UNIX_TIMESTAMP_MIN <= source_date_epoch <= UNIX_TIMESTAMP_MAX ==> (timestamp matches Ok(fields)
            && is_utc_instant(fields, source_date_epoch)),
        !(UNIX_TIMESTAMP_MIN <= source_date_epoch <= UNIX_TIMESTAMP_MAX) ==> (timestamp matches Err(
            Error::Timestamp(epoch),
        ) && epoch == source_date_epoch),
{
    match utc_from_unix(source_date_epoch) {
        Some(instant) => Ok(instant),
        None => Err(Error::Timestamp(source_date_epoch)),
    }
}

/// The bytes every PDF starts with: `%PDF-`.
pub open spec fn pdf_magic() -> Seq<u8> {
    seq![0x25u8, 0x50u8, 0x44u8, 0x46u8, 0x2du8]
}

/// The bytes start with the PDF header.
pub open spec fn is_pdf(bytes: Seq<u8>) -> bool {
    bytes.len() >= 5 && bytes.subrange(0, 5) == pdf_magic()
}

/// The text of an `Error::Pdf`, if that is what `error` is.
pub open spec fn pdf_message(error: Error) -> Option<Seq<char>> {
    match error {
        Error::Pdf(message) => Some(message@),
        _ => None,
    }
}

/// Accept exported bytes as a PDF only when they start with `%PDF-`.
pub fn check_pdf(pdf: Vec<u8>) -> (checked: Result<Vec<u8>, Error>)
    ensures
        is_pdf(pdf@) ==> (checked matches Ok(bytes) && bytes@ == pdf@),
        !is_pdf(pdf@) ==> (checked matches Err(error) && pdf_message(error) == Some(
            "export did not return a PDF"@,
        )),
{
    let header = pdf.len() >= 5 && pdf[0] == 0x25u8 && pdf[1] == 0x50u8 && pdf[2] == 0x44u8 && pdf[3] == 0x46u8
        && pdf[4] == 0x2du8;
    if header {
        assert(pdf@.subrange(0, 5) =~= pdf_magic());
        Ok(pdf)
    } else {
        proof {
            if is_pdf(pdf@) {
                assert(pdf@.subrange(0, 5)[0] == pdf@[0]);
                assert(pdf@.subrange(0, 5)[1] == pdf@[1]);
                assert(pdf@.subrange(0, 5)[2] == pdf@[2]);
                assert(pdf@.subrange(0, 5)[3] == pdf@[3]);
                assert(pdf@.subrange(0, 5)[4] == pdf@[4]);
            }
        }
        Err(Error::Pdf("export did not return a PDF".to_owned()))
    }
}

/// The PDF header is the ASCII text `%PDF-`.
pub proof fn lemma_pdf_magic_is_the_header_text()
    ensures
        pdf_magic().len() == "%PDF-"@.len(),
        forall|i: int| 0 <= i < pdf_magic().len() ==> #[trigger] pdf_magic()[i] as u32 == "%PDF-"@[i] as u32,
{
    reveal_strlit("%PDF-");
}

/// The fields of a UTC instant split the timestamp: the day times 86400
/// plus the hour, minute and second of the day gives the timestamp back,
/// each part within its range.
pub proof fn lemma_utc_instant_splits_the_timestamp(fields: PdfTimestamp, timestamp: i64)
    requires
        is_utc_instant(fields, timestamp),
    ensures
        fields.hour < 24 && fields.minute < 60 && fields.second < 60,
        unix_day(timestamp) * 86400 + fields.hour * 3600 + fields.minute * 60 + fields.second == timestamp,
{
    let t = timestamp as int;
    let r = seconds_into_day(timestamp);
    assert(unix_day(timestamp) * 86400 + r == t && 0 <= r < 86400) by (nonlinear_arith)
        requires
            unix_day(timestamp) == t / 86400,
            r == t % 86400,
    ;
    assert(r == (r / 3600) * 3600 + ((r % 3600) / 60) * 60 + r % 60 && r / 3600 < 24 && (r % 3600) / 60 < 60
        && r % 60 < 60) by (nonlinear_arith)
        requires
            0 <= r < 86400,
    ;
}

/// The Gregorian calendar repeats every 400 years (146097 days), and day 0
/// of the Unix count is 1970-01-01.
pub proof fn lemma_civil_calendar_repeats(days: int)
    ensures
        civil_from_days(days + 146097) == (
            civil_from_days(days).0 + 400,
            civil_from_days(days).1,
            civil_from_days(days).2,
        ),
        civil_from_days(0) == (1970int, 1int, 1int),
{
    let shifted = days + 719468;
    assert((shifted + 146097) / 146097 == shifted / 146097 + 1) by (nonlinear_arith);
}

} // verus!
