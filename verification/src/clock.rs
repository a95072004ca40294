//! Dates and instants, parsed and formatted by chrono.
use chrono::{Datelike, Offset, TimeZone};
use vstd::prelude::*;

verus! {

#[verifier::external_type_specification]
#[verifier::external_body]
pub struct ExNaiveDateTime(chrono::NaiveDateTime);

#[verifier::external_type_specification]
#[verifier::external_body]
pub struct ExNaiveDate(chrono::NaiveDate);

/// An instant in UTC: seconds since the Unix epoch and the nanoseconds past them
/// (a leap second carries nanoseconds from 1_000_000_000 up). Instants are ordered by
/// (seconds, nanoseconds).
pub struct Moment {
    secs: i64,
    nanos: u32,
    utc: chrono::NaiveDateTime,
}

impl Moment {
    pub closed spec fn secs_spec(&self) -> i64 {
        self.secs
    }

    pub closed spec fn nanos_spec(&self) -> u32 {
        self.nanos
    }

    /// Seconds since the Unix epoch.
    pub fn timestamp(&self) -> (r: i64)
        ensures
            r == self.secs_spec(),
    {
        self.secs
    }

    /// Nanoseconds past `timestamp()`.
    pub fn subsec_nanos(&self) -> (r: u32)
        ensures
            r == self.nanos_spec(),
    {
        self.nanos
    }
}

/// Whether `a` is later than `b`.
pub open spec fn later(a: (i64, u32), b: (i64, u32)) -> bool {
    a.0 > b.0 || (a.0 == b.0 && a.1 > b.1)
}

pub fn is_later(a: &Moment, b: &Moment) -> (r: bool)
    ensures
        r == later((a.secs_spec(), a.nanos_spec()), (b.secs_spec(), b.nanos_spec())),
{
    a.timestamp() > b.timestamp() || (a.timestamp() == b.timestamp() && a.subsec_nanos()
        > b.subsec_nanos())
}

/// A calendar date (proleptic Gregorian).
pub struct Day {
    year: i32,
    month: u32,
    day: u32,
    date: chrono::NaiveDate,
}

impl Day {
    pub closed spec fn ymd(&self) -> (i32, u32, u32) {
        (self.year, self.month, self.day)
    }

    pub fn year(&self) -> (r: i32)
        ensures
            r == self.ymd().0,
    {
        self.year
    }

    pub fn month(&self) -> (r: u32)
        ensures
            r == self.ymd().1,
    {
        self.month
    }

    pub fn day(&self) -> (r: u32)
        ensures
            r == self.ymd().2,
    {
        self.day
    }
}

/// Days from 1970-01-01 to the date `y`-`m`-`d` of the proleptic Gregorian calendar.
pub open spec fn days_from_civil(y: int, m: int, d: int) -> int {
    let y2 = if m <= 2 {
        y - 1
    } else {
        y
    };
    let era = y2 / 400;
    let yoe = y2 - era * 400;
    let mp = if m > 2 {
        m - 3
    } else {
        m + 9
    };
    let doy = (153 * mp + 2) / 5 + d - 1;
    let doe = yoe * 365 + yoe / 4 - yoe / 100 + doy;
    era * 146097 + doe - 719468
}

/// What `DateTime::parse_from_rfc3339` gives for this text, as a UTC timestamp and
/// nanoseconds.
pub uninterp spec fn rfc3339_instant(text: Seq<char>) -> Option<(i64, u32)>;

/// What `NaiveDateTime::parse_from_str(text, "%Y-%m-%dT%H:%M:%S%.f")` gives, read as UTC.
pub uninterp spec fn naive_utc_instant(text: Seq<char>) -> Option<(i64, u32)>;

/// What `NaiveDate::parse_from_str(text, "%Y-%m-%d")` gives, as year, month and day.
pub uninterp spec fn ymd_date(text: Seq<char>) -> Option<(i32, u32, u32)>;

/// What `DateTime::<Utc>::to_rfc3339` writes for the instant (seconds, nanoseconds).
pub uninterp spec fn utc_rfc3339_text(secs: i64, nanos: u32) -> Seq<char>;

/// What `format(pattern)` writes for a local time whose wall clock reads `local_secs`
/// seconds since 1970-01-01 00:00 (the instant moved by its UTC offset).
pub uninterp spec fn time_text(local_secs: i64, pattern: Seq<char>) -> Seq<char>;

/// What `to_rfc3339` writes for the whole-second instant `secs` shown at the UTC offset
/// `offset_secs`.
pub uninterp spec fn offset_rfc3339_text(secs: i64, offset_secs: i32) -> Seq<char>;

/// What `NaiveDate::format(pattern)` writes for the date `y`-`m`-`d`.
pub uninterp spec fn date_text(y: i32, m: u32, d: u32, pattern: Seq<char>) -> Seq<char>;

/// `DateTime::parse_from_rfc3339`, the offset applied to give a UTC instant. Its result for
/// each text is named by `rfc3339_instant`; the grammar is not restated.
#[verifier::external_body]
pub(crate) fn parse_rfc3339(text: &str) -> (r: Option<Moment>)
    ensures
        r is None <==> rfc3339_instant(text@) is None,
        r matches Some(m) ==> rfc3339_instant(text@) == Some((m.secs_spec(), m.nanos_spec())),
{
    let dt = chrono::DateTime::parse_from_rfc3339(text).ok()?;
    let utc = dt.naive_utc();
    Some(Moment { secs: dt.timestamp(), nanos: dt.timestamp_subsec_nanos(), utc })
}

/// `NaiveDateTime::parse_from_str` with the pattern `%Y-%m-%dT%H:%M:%S%.f`, read as UTC.
/// Its result for each text is named by `naive_utc_instant`.
#[verifier::external_body]
pub(crate) fn parse_naive_utc(text: &str) -> (r: Option<Moment>)
    ensures
        r is None <==> naive_utc_instant(text@) is None,
        r matches Some(m) ==> naive_utc_instant(text@) == Some((m.secs_spec(), m.nanos_spec())),
{
    let utc = chrono::NaiveDateTime::parse_from_str(text, "%Y-%m-%dT%H:%M:%S%.f").ok()?;
    let dt = utc.and_utc();
    Some(Moment { secs: dt.timestamp(), nanos: dt.timestamp_subsec_nanos(), utc })
}

/// `NaiveDate::parse_from_str` with the pattern `%Y-%m-%d`. Its result for each text is
/// named by `ymd_date`.
#[verifier::external_body]
pub(crate) fn parse_ymd(text: &str) -> (r: Option<Day>)
    ensures
        r is None <==> ymd_date(text@) is None,
        r matches Some(d) ==> ymd_date(text@) == Some(d.ymd()),
{
    let date = chrono::NaiveDate::parse_from_str(text, "%Y-%m-%d").ok()?;
    Some(Day { year: date.year(), month: date.month(), day: date.day(), date })
}

/// `DateTime::<Utc>::to_rfc3339`; the text for each instant is named by `utc_rfc3339_text`.
#[verifier::external_body]
pub(crate) fn rfc3339_text(m: &Moment) -> (r: String)
    ensures
        r@ == utc_rfc3339_text(m.secs_spec(), m.nanos_spec()),
{
    m.utc.and_utc().to_rfc3339()
}

/// `NaiveDate::format` with one of the two patterns used here; the text for each date and
/// pattern is named by `date_text`.
#[verifier::external_body]
pub(crate) fn format_day(d: &Day, pattern: &str) -> (r: String)
    requires
        pattern@ == "%Y-%m-%d"@ || pattern@ == "%A, %B %-d"@,
    ensures
        r@ == date_text(d.ymd().0, d.ymd().1, d.ymd().2, pattern@),
{
    d.date.format(pattern).to_string()
}

/// Midnight UTC at the start of the day `d` (`Utc.from_utc_datetime(&d.and_hms(0, 0, 0))`):
/// its timestamp is the number of days since 1970-01-01 times 86 400.
#[verifier::external_body]
pub(crate) fn midnight_utc(d: &Day) -> (r: Moment)
    ensures
        r.secs_spec() == days_from_civil(d.ymd().0 as int, d.ymd().1 as int, d.ymd().2 as int)
            * 86400,
        r.nanos_spec() == 0,
{
    let utc = d.date.and_time(chrono::NaiveTime::MIN);
    Moment { secs: utc.and_utc().timestamp(), nanos: 0, utc }
}

/// Whether an instant (seconds since the epoch) lies a full day inside chrono's range of
/// dates (1 January 262144 BCE to 31 December 262142 CE), so that any UTC offset, which is
/// always less than a day, keeps its local date and time within that range.
pub open spec fn placeable(secs: int) -> bool {
    days_from_civil(-262143, 1, 1) * 86400 + 86400 <= secs < days_from_civil(262142, 12, 31)
        * 86400
}

/// Whether the instant `secs` can be read in any time zone.
pub fn is_placeable_secs(s: i64) -> (r: bool)
    ensures
        r == placeable(s as int),
{
    assert(days_from_civil(-262143, 1, 1) == -96465292);
    assert(days_from_civil(262142, 12, 31) == 95026236);
    -8334601142400 <= s && s < 8210266790400
}

/// Whether the instant can be read in any time zone.
pub fn is_placeable(m: &Moment) -> (r: bool)
    ensures
        r == placeable(m.secs_spec() as int),
{
    is_placeable_secs(m.timestamp())
}

/// The instant in the machine's local time zone (`with_timezone(&Local)`): the local date,
/// the local time as `%-I:%M %p`, and the offset from UTC in seconds. The offset depends on
/// the time zone of the machine.
pub struct LocalStamp {
    pub day: Day,
    pub time_label: String,
    pub offset_secs: i32,
}

/// `DateTime::with_timezone(&Local)` of the instant, read as date, clock label (`format` with
/// the clock pattern `%-I:%M %p`) and offset. The offset depends on the machine's time zone
/// and is not named; chrono's `FixedOffset` keeps it under a day either way. The local date
/// and the clock label are those of the instant moved by the offset (`naive_local` adds it):
/// the date is the civil day of `secs + offset_secs`, and the label, named by `time_text`,
/// depends on that wall time alone. The instant must lie a day inside chrono's range, where
/// `naive_local` cannot overflow.
#[verifier::external_body]
pub(crate) fn local_stamp(m: &Moment, pattern: &str) -> (r: LocalStamp)
    requires
        placeable(m.secs_spec() as int),
        pattern@ == "%-I:%M %p"@,
    ensures
        -86400 < r.offset_secs < 86400,
        days_from_civil(r.day.ymd().0 as int, r.day.ymd().1 as int, r.day.ymd().2 as int) == (
        m.secs_spec() + r.offset_secs) / 86400,
        r.time_label@ == time_text((m.secs_spec() + r.offset_secs) as i64, pattern@),
{
    let local = m.utc.and_utc().with_timezone(&chrono::Local);
    let date = local.date_naive();
    LocalStamp {
        day: Day { year: date.year(), month: date.month(), day: date.day(), date },
        time_label: local.format(pattern).to_string(),
        offset_secs: local.offset().fix().local_minus_utc(),
    }
}

/// `FixedOffset::east_opt(offset_secs)`, then `timestamp_opt(secs, 0)` written with
/// `to_rfc3339`; the text is named by `offset_rfc3339_text`. An offset under a day always
/// exists, and an instant a day inside chrono's range always converts and prints (where
/// `naive_local` cannot overflow); elsewhere the result may be `None`.
#[verifier::external_body]
pub(crate) fn rfc3339_at_offset(secs: i64, offset_secs: i32) -> (r: Option<String>)
    requires
        -86400 < offset_secs < 86400,
        placeable(secs as int),
    ensures
        r matches Some(t) ==> t@ == offset_rfc3339_text(secs, offset_secs),
        r is Some,
{
    let zone = chrono::FixedOffset::east_opt(offset_secs)?;
    zone.timestamp_opt(secs, 0).single().map(|t| t.to_rfc3339())
}

/// The current time: `SystemTime::now()` since the Unix epoch, read with
/// `DateTime::from_timestamp`. It depends on the machine's clock, so nothing is claimed of
/// it; `None` where `Utc::now` would panic (a clock before 1970) or where chrono cannot hold
/// the reading.
#[verifier::external_body]
pub(crate) fn now() -> Option<Moment> {
    let since = std::time::SystemTime::now().duration_since(std::time::UNIX_EPOCH).ok()?;
    let secs = i64::try_from(since.as_secs()).ok()?;
    let dt = chrono::DateTime::from_timestamp(secs, since.subsec_nanos())?;
    Some(Moment { secs: dt.timestamp(), nanos: dt.timestamp_subsec_nanos(), utc: dt.naive_utc() })
}

} // verus!
