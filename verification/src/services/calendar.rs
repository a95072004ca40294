//! Calendar events from Google Calendar and Microsoft Graph, and the day's agenda.
use vstd::prelude::*;

use crate::clock::{
    Day, LocalStamp, Moment, date_text, days_from_civil, format_day, is_later, is_placeable,
    later, local_stamp, placeable, is_placeable_secs, offset_rfc3339_text, rfc3339_at_offset, midnight_utc, naive_utc_instant, parse_naive_utc, parse_rfc3339, parse_ymd,
    rfc3339_instant, rfc3339_text, time_text, utc_rfc3339_text, ymd_date,
};
use crate::config::opt_view;
use crate::text::{
    at_most, chars_of, clean_lines, clean_lines_spec, eq_str, from_str, string_of, trim,
    trim_spec,
};
use crate::weburl::{
    http_url, http_url_spec, pairs_view, parse_url, url_parse_result, url_with_query,
    url_with_query_result,
};

verus! {

/// One calendar event, normalised across providers.
pub struct CalendarEvent {
    pub id: String,
    pub ical_uid: Option<String>,
    pub title: String,
    pub start: String,
    pub end: String,
    pub start_unix: i64,
    pub end_unix: i64,
    pub all_day: bool,
    pub provider: String,
    pub status: String,
    pub description: Option<String>,
    pub location: Option<String>,
    pub join_url: Option<String>,
    pub event_url: Option<String>,
    pub day_key: String,
    pub day_label: String,
    pub time_label: String,
}

/// A calendar event as plain values.
pub ghost struct EventView {
    pub id: Seq<char>,
    pub ical_uid: Option<Seq<char>>,
    pub title: Seq<char>,
    pub start: Seq<char>,
    pub end: Seq<char>,
    pub start_unix: i64,
    pub end_unix: i64,
    pub all_day: bool,
    pub provider: Seq<char>,
    pub status: Seq<char>,
    pub description: Option<Seq<char>>,
    pub location: Option<Seq<char>>,
    pub join_url: Option<Seq<char>>,
    pub event_url: Option<Seq<char>>,
    pub day_key: Seq<char>,
    pub day_label: Seq<char>,
    pub time_label: Seq<char>,
}

impl View for CalendarEvent {
    type V = EventView;

    open spec fn view(&self) -> EventView {
        EventView {
            id: self.id@,
            ical_uid: opt_view(self.ical_uid),
            title: self.title@,
            start: self.start@,
            end: self.end@,
            start_unix: self.start_unix,
            end_unix: self.end_unix,
            all_day: self.all_day,
            provider: self.provider@,
            status: self.status@,
            description: opt_view(self.description),
            location: opt_view(self.location),
            join_url: opt_view(self.join_url),
            event_url: opt_view(self.event_url),
            day_key: self.day_key@,
            day_label: self.day_label@,
            time_label: self.time_label@,
        }
    }
}

fn copy_opt(o: &Option<String>) -> (r: Option<String>)
    ensures
        r == *o,
{
    match o {
        Some(s) => Some(s.clone()),
        None => None,
    }
}

impl CalendarEvent {
    /// A copy of this event.
    pub fn duplicate(&self) -> (r: Self)
        ensures
            r == *self,
    {
        CalendarEvent {
            id: self.id.clone(),
            ical_uid: copy_opt(&self.ical_uid),
            title: self.title.clone(),
            start: self.start.clone(),
            end: self.end.clone(),
            start_unix: self.start_unix,
            end_unix: self.end_unix,
            all_day: self.all_day,
            provider: self.provider.clone(),
            status: self.status.clone(),
            description: copy_opt(&self.description),
            location: copy_opt(&self.location),
            join_url: copy_opt(&self.join_url),
            event_url: copy_opt(&self.event_url),
            day_key: self.day_key.clone(),
            day_label: self.day_label.clone(),
            time_label: self.time_label.clone(),
        }
    }
}

// ---------------------------------------------------------------------------
// Provider payloads
// ---------------------------------------------------------------------------

/// The start or end of a Google event: a date-time, or a date for all-day events.
pub struct GoogleDateTime {
    pub date_time: Option<String>,
    pub date: Option<String>,
}

pub struct GoogleEntryPoint {
    pub entry_point_type: Option<String>,
    pub uri: Option<String>,
}

pub struct GoogleConferenceData {
    pub entry_points: Vec<GoogleEntryPoint>,
}

/// An event as Google Calendar sends it.
pub struct GoogleEvent {
    pub id: String,
    pub ical_uid: Option<String>,
    pub summary: Option<String>,
    pub description: Option<String>,
    pub location: Option<String>,
    pub status: Option<String>,
    pub hangout_link: Option<String>,
    pub html_link: Option<String>,
    pub conference_data: Option<GoogleConferenceData>,
    pub start: GoogleDateTime,
    pub end: GoogleDateTime,
}

/// An event as Microsoft Graph sends it.
pub struct OutlookEvent {
    pub id: String,
    pub ical_uid: Option<String>,
    pub subject: Option<String>,
    pub body_preview: Option<String>,
    pub location_display_name: Option<String>,
    pub start_date_time: Option<String>,
    pub end_date_time: Option<String>,
    pub is_all_day: bool,
    pub is_cancelled: bool,
    pub online_meeting_join_url: Option<String>,
    pub online_meeting_url: Option<String>,
    pub web_link: Option<String>,
}

// ---------------------------------------------------------------------------
// Small helpers
// ---------------------------------------------------------------------------

/// A link kept only when it is an `http(s)` URL with a host, in its serialised form.
pub fn safe_http_url(raw: &str) -> (r: Option<String>)
    ensures
        opt_view(r) == http_url_spec(raw@),
{
    let r = http_url(raw);
    r
}

/// `safe_http_url` of an optional link.
pub open spec fn safe_link(raw: Option<Seq<char>>) -> Option<Seq<char>> {
    match raw {
        Some(r) => http_url_spec(r),
        None => None,
    }
}

fn safe_opt_link(raw: &Option<String>) -> (r: Option<String>)
    ensures
        opt_view(r) == safe_link(opt_view(*raw)),
{
    match raw {
        Some(link) => safe_http_url(link.as_str()),
        None => None,
    }
}

/// Provider text cleaned (line feeds kept) and cut; absent when nothing is left.
pub open spec fn clean_optional_spec(value: Option<Seq<char>>, max: int) -> Option<Seq<char>> {
    let v = clean_lines_spec(
        match value {
            Some(v) => v,
            None => Seq::empty(),
        },
        max,
    );
    if v.len() == 0 {
        None
    } else {
        Some(v)
    }
}

fn clean_optional_text(value: &Option<String>, max_chars: usize) -> (r: Option<String>)
    ensures
        opt_view(r) == clean_optional_spec(opt_view(*value), max_chars as int),
{
    let v = match value {
        Some(v) => clean_lines(v.as_str(), max_chars),
        None => clean_lines("", max_chars),
    };
    proof {
        if value is None {
            assert(""@.len() == 0) by {
                reveal_strlit("");
            }
            assert(""@ =~= Seq::<char>::empty());
        }
    }
    if v.as_str().is_empty() {
        None
    } else {
        Some(v)
    }
}

/// Whether a host names the local machine.
pub open spec fn loopback_host(host: Seq<char>) -> bool {
    host == "localhost"@ || host == "127.0.0.1"@ || host == "::1"@ || host == "[::1]"@
}

/// The API endpoint of a provider: the configured address, else `default`, trimmed and
/// parsed; it must use HTTPS, or HTTP on a loopback host.
pub open spec fn provider_endpoint_spec(
    configured: Option<Seq<char>>,
    default: Seq<char>,
    service: Seq<char>,
) -> Result<Seq<char>, Seq<char>> {
    let raw = match configured {
        Some(c) => c,
        None => default,
    };
    match url_parse_result(trim_spec(raw)) {
        None => Err("Invalid "@ + service + " API URL"@),
        Some((scheme, host, serialization, _)) => {
            let h = match host {
                Some(h) => h,
                None => Seq::empty(),
            };
            if scheme != "https"@ && !(scheme == "http"@ && loopback_host(h)) {
                Err(service + " API URL must use HTTPS"@)
            } else {
                Ok(serialization)
            }
        },
    }
}

pub open spec fn result_view(r: Result<String, String>) -> Result<Seq<char>, Seq<char>> {
    match r {
        Ok(s) => Ok(s@),
        Err(e) => Err(e@),
    }
}

/// Checks the API endpoint of a provider; `configured` is the address set in the
/// environment, if any.
pub fn provider_endpoint(configured: Option<&str>, default: &str, service: &str) -> (r: Result<
    String,
    String,
>)
    ensures
        result_view(r) == provider_endpoint_spec(
            match configured {
                Some(c) => Some(c@),
                None => None,
            },
            default@,
            service@,
        ),
{
    let raw = match configured {
        Some(c) => c,
        None => default,
    };
    let trimmed = string_of(&trim(&chars_of(raw)));
    let parts = match parse_url(trimmed.as_str()) {
        Some(p) => p,
        None => {
            let mut msg: Vec<char> = chars_of("Invalid ");
            crate::text::push_str(&mut msg, service);
            crate::text::push_str(&mut msg, " API URL");
            assert(msg@ =~= "Invalid "@ + service@ + " API URL"@);
            return Err(string_of(&msg));
        },
    };
    let host = match &parts.host {
        Some(h) => chars_of(h.as_str()),
        None => Vec::new(),
    };
    let loopback = eq_str(&host, "localhost") || eq_str(&host, "127.0.0.1") || eq_str(&host, "::1")
        || eq_str(&host, "[::1]");
    let scheme = chars_of(parts.scheme.as_str());
    if !eq_str(&scheme, "https") && !(eq_str(&scheme, "http") && loopback) {
        let mut msg: Vec<char> = chars_of(service);
        crate::text::push_str(&mut msg, " API URL must use HTTPS");
        return Err(string_of(&msg));
    }
    Ok(parts.serialization)
}

// ---------------------------------------------------------------------------
// Times of provider events
// ---------------------------------------------------------------------------

pub open spec fn day_opt_view(d: Option<Day>) -> Option<(i32, u32, u32)> {
    match d {
        Some(d) => Some(d.ymd()),
        None => None,
    }
}

pub open spec fn moment_view(m: Moment) -> (i64, u32) {
    (m.secs_spec(), m.nanos_spec())
}

/// The start and end of a Google event, whether it lasts all day, and its date when it does:
/// two date-times when both are given, else two dates taken as midnight UTC (the end date
/// exclusive). The end must come after the start.
pub open spec fn google_range_spec(start: GoogleDateTime, end: GoogleDateTime) -> Option<
    ((i64, u32), (i64, u32), bool, Option<(i32, u32, u32)>),
> {
    if start.date_time is Some && end.date_time is Some {
        match (
            rfc3339_instant(start.date_time->0@),
            rfc3339_instant(end.date_time->0@),
        ) {
            (Some(a), Some(b)) => if later(b, a) {
                Some((a, b, false, None))
            } else {
                None
            },
            _ => None,
        }
    } else if start.date is Some && end.date is Some {
        match (ymd_date(start.date->0@), ymd_date(end.date->0@)) {
            (Some(a), Some(b)) => {
                let sa = ((days_from_civil(a.0 as int, a.1 as int, a.2 as int) * 86400) as i64, 0u32);
                let sb = ((days_from_civil(b.0 as int, b.1 as int, b.2 as int) * 86400) as i64, 0u32);
                if later(sb, sa) {
                    Some((sa, sb, true, Some(a)))
                } else {
                    None
                }
            },
            _ => None,
        }
    } else {
        None
    }
}

/// The start, end, all-day flag and (for all-day events) date of a Google event.
pub fn parse_google_range(start: &GoogleDateTime, end: &GoogleDateTime) -> (r: Option<
    (Moment, Moment, bool, Option<Day>),
>)
    ensures
        match r {
            Some((a, b, all_day, date)) => google_range_spec(*start, *end) == Some(
                (
                    moment_view(a),
                    moment_view(b),
                    all_day,
                    day_opt_view(date),
                ),
            ),
            None => google_range_spec(*start, *end) is None,
        },
{
    if let (Some(s), Some(e)) = (&start.date_time, &end.date_time) {
        let a = match parse_rfc3339(s.as_str()) {
            Some(a) => a,
            None => return None,
        };
        let b = match parse_rfc3339(e.as_str()) {
            Some(b) => b,
            None => return None,
        };
        if is_later(&b, &a) {
            return Some((a, b, false, None));
        } else {
            return None;
        }
    }
    let sd = match &start.date {
        Some(d) => d,
        None => return None,
    };
    let ed = match &end.date {
        Some(d) => d,
        None => return None,
    };
    let start_day = match parse_ymd(sd.as_str()) {
        Some(d) => d,
        None => return None,
    };
    let end_day = match parse_ymd(ed.as_str()) {
        Some(d) => d,
        None => return None,
    };
    let a = midnight_utc(&start_day);
    let b = midnight_utc(&end_day);
    if is_later(&b, &a) {
        Some((a, b, true, Some(start_day)))
    } else {
        None
    }
}

/// A Microsoft Graph time: RFC 3339, or a date-time without offset read as UTC.
pub open spec fn outlook_instant_spec(value: Seq<char>) -> Option<(i64, u32)> {
    match rfc3339_instant(value) {
        Some(x) => Some(x),
        None => naive_utc_instant(value),
    }
}

pub fn parse_outlook_datetime(value: &str) -> (r: Option<Moment>)
    ensures
        match r {
            Some(m) => outlook_instant_spec(value@) == Some(moment_view(m)),
            None => outlook_instant_spec(value@) is None,
        },
{
    match parse_rfc3339(value) {
        Some(m) => Some(m),
        None => parse_naive_utc(value),
    }
}

// ---------------------------------------------------------------------------
// Building events
// ---------------------------------------------------------------------------

/// The UTC offset, local date and clock label of an event's start, as the machine's time zone
/// gives them.
pub type LocalView = (i32, (i32, u32, u32), Seq<char>);

pub open spec fn local_view(l: LocalStamp) -> LocalView {
    (l.offset_secs, l.day.ymd(), l.time_label@)
}

/// The pattern of an event's clock label: the hour without padding, the minutes, AM or PM.
pub const CLOCK_PATTERN: &'static str = "%-I:%M %p";

/// Whether `local` reads the instant `secs` at some UTC offset under a day: its date is the
/// civil day of `secs + offset`, and its label is that wall time in the clock pattern.
pub open spec fn local_reading(secs: int, local: LocalView) -> bool {
    let offset = local.0;
    let day = local.1;
    &&& -86400 < offset < 86400
    &&& days_from_civil(day.0 as int, day.1 as int, day.2 as int) == (secs + offset) / 86400
    &&& local.2 == time_text((secs + offset) as i64, CLOCK_PATTERN@)
}

/// An event title: cleaned and cut to 240 characters, `Untitled` when nothing is left.
pub open spec fn event_title_spec(title: Option<Seq<char>>) -> Seq<char> {
    let t = clean_lines_spec(
        match title {
            Some(t) => t,
            None => "Untitled"@,
        },
        240,
    );
    if t.len() == 0 {
        "Untitled"@
    } else {
        t
    }
}

/// The provider fields of an event before normalising.
pub ghost struct RawEvent {
    pub id: Seq<char>,
    pub ical_uid: Option<Seq<char>>,
    pub title: Option<Seq<char>>,
    pub provider: Seq<char>,
    pub status: Seq<char>,
    pub description: Option<Seq<char>>,
    pub location: Option<Seq<char>>,
    pub join_url: Option<Seq<char>>,
    pub event_url: Option<Seq<char>>,
}

/// The normalised event: cleaned texts, RFC 3339 times, and the date and time labels of the
/// start (for an all-day event, its own date and `All day`).
pub open spec fn finalize_spec(
    raw: RawEvent,
    start: (i64, u32),
    end: (i64, u32),
    all_day: bool,
    all_day_date: Option<(i32, u32, u32)>,
    local: LocalView,
) -> EventView {
    let display = match all_day_date {
        Some(d) => d,
        None => local.1,
    };
    EventView {
        id: clean_lines_spec(raw.id, 512),
        ical_uid: match raw.ical_uid {
            Some(u) => Some(clean_lines_spec(u, 512)),
            None => None,
        },
        title: event_title_spec(raw.title),
        start: utc_rfc3339_text(start.0, start.1),
        end: utc_rfc3339_text(end.0, end.1),
        start_unix: start.0,
        end_unix: end.0,
        all_day,
        provider: raw.provider,
        status: raw.status,
        description: clean_optional_spec(raw.description, 4000),
        location: clean_optional_spec(raw.location, 500),
        join_url: raw.join_url,
        event_url: raw.event_url,
        day_key: date_text(display.0, display.1, display.2, "%Y-%m-%d"@),
        day_label: date_text(display.0, display.1, display.2, "%A, %B %-d"@),
        time_label: if all_day {
            "All day"@
        } else {
            local.2
        },
    }
}

/// The provider fields of an event, taken together.
pub struct RawEventFields {
    pub id: String,
    pub ical_uid: Option<String>,
    pub title: Option<String>,
    pub provider: String,
    pub status: String,
    pub description: Option<String>,
    pub location: Option<String>,
    pub join_url: Option<String>,
    pub event_url: Option<String>,
}

impl RawEventFields {
    pub open spec fn raw(&self) -> RawEvent {
        RawEvent {
            id: self.id@,
            ical_uid: opt_view(self.ical_uid),
            title: opt_view(self.title),
            provider: self.provider@,
            status: self.status@,
            description: opt_view(self.description),
            location: opt_view(self.location),
            join_url: opt_view(self.join_url),
            event_url: opt_view(self.event_url),
        }
    }
}

/// Builds the normalised event from the provider fields and the local date and clock label
/// of its start.
pub fn finalize_event_with(
    fields: &RawEventFields,
    start: &Moment,
    end: &Moment,
    all_day: bool,
    all_day_date: &Option<Day>,
    local: &LocalStamp,
) -> (r: CalendarEvent)
    ensures
        r@ == finalize_spec(
            fields.raw(),
            moment_view(*start),
            moment_view(*end),
            all_day,
            day_opt_view(*all_day_date),
            local_view(*local),
        ),
{
    let display: &Day = match all_day_date {
        Some(d) => d,
        None => &local.day,
    };
    let title_text = match &fields.title {
        Some(t) => clean_lines(t.as_str(), 240),
        None => clean_lines("Untitled", 240),
    };
    let title = if title_text.as_str().is_empty() {
        from_str("Untitled")
    } else {
        title_text
    };
    let ical_uid = match &fields.ical_uid {
        Some(u) => Some(clean_lines(u.as_str(), 512)),
        None => None,
    };
    let r = CalendarEvent {
        id: clean_lines(fields.id.as_str(), 512),
        ical_uid,
        title,
        start: rfc3339_text(start),
        end: rfc3339_text(end),
        start_unix: start.timestamp(),
        end_unix: end.timestamp(),
        all_day,
        provider: fields.provider.clone(),
        status: fields.status.clone(),
        description: clean_optional_text(&fields.description, 4000),
        location: clean_optional_text(&fields.location, 500),
        join_url: copy_opt(&fields.join_url),
        event_url: copy_opt(&fields.event_url),
        day_key: format_day(display, "%Y-%m-%d"),
        day_label: format_day(display, "%A, %B %-d"),
        time_label: if all_day {
            from_str("All day")
        } else {
            local.time_label.clone()
        },
    };
    assert(r@ =~= finalize_spec(
        fields.raw(),
        moment_view(*start),
        moment_view(*end),
        all_day,
        day_opt_view(*all_day_date),
        local_view(*local),
    ));
    r
}

/// Builds the normalised event, reading the local date and time of its start from the
/// machine's time zone.
fn finalize_event(
    fields: &RawEventFields,
    start: &Moment,
    end: &Moment,
    all_day: bool,
    all_day_date: &Option<Day>,
) -> (r: CalendarEvent)
    requires
        placeable(start.secs_spec() as int),
    ensures
        exists|local: LocalView|
            r@ == #[trigger] finalize_spec(
                fields.raw(),
                moment_view(*start),
                moment_view(*end),
                all_day,
                day_opt_view(*all_day_date),
                local,
            ) && local_reading(start.secs_spec() as int, local),
{
    let local = local_stamp(start, CLOCK_PATTERN);
    assert(local_reading(start.secs_spec() as int, local_view(local)));
    let r = finalize_event_with(fields, start, end, all_day, all_day_date, &local);
    assert(r@ == finalize_spec(
        fields.raw(),
        moment_view(*start),
        moment_view(*end),
        all_day,
        day_opt_view(*all_day_date),
        local_view(local),
    ));
    r
}


// ---------------------------------------------------------------------------
// Mapping provider events
// ---------------------------------------------------------------------------

/// The first entry point of type `video`.
pub open spec fn first_video(eps: Seq<GoogleEntryPoint>) -> Option<GoogleEntryPoint>
    decreases eps.len(),
{
    if eps.len() == 0 {
        None
    } else if opt_view(eps[0].entry_point_type) == Some("video"@) {
        Some(eps[0])
    } else {
        first_video(eps.drop_first())
    }
}

/// The meeting link of a Google event: the URI of its first video entry point, else its
/// Hangouts link, each kept only when it is a safe `http(s)` link.
pub open spec fn google_join_spec(e: GoogleEvent) -> Option<Seq<char>> {
    let conference = match e.conference_data {
        Some(c) => match first_video(c.entry_points@) {
            Some(ep) => safe_link(opt_view(ep.uri)),
            None => None,
        },
        None => None,
    };
    match conference {
        Some(u) => Some(u),
        None => safe_link(opt_view(e.hangout_link)),
    }
}

pub open spec fn google_raw(e: GoogleEvent) -> RawEvent {
    RawEvent {
        id: e.id@,
        ical_uid: opt_view(e.ical_uid),
        title: opt_view(e.summary),
        provider: "google"@,
        status: "confirmed"@,
        description: opt_view(e.description),
        location: opt_view(e.location),
        join_url: google_join_spec(e),
        event_url: safe_link(opt_view(e.html_link)),
    }
}

/// A Google event is dropped when it is cancelled or its times do not make a range.
pub open spec fn google_skipped(e: GoogleEvent) -> bool {
    ||| opt_view(e.status) == Some("cancelled"@)
    ||| google_range_spec(e.start, e.end) is None
    ||| !placeable(google_start_secs(e))
}

/// The start, in seconds, of a Google event's range.
pub open spec fn google_start_secs(e: GoogleEvent) -> int {
    let range = google_range_spec(e.start, e.end)->0;
    let start = range.0;
    start.0 as int
}

pub open spec fn google_event_spec(e: GoogleEvent, local: LocalView) -> EventView {
    let r = google_range_spec(e.start, e.end)->0;
    finalize_spec(google_raw(e), r.0, r.1, r.2, r.3, local)
}

fn first_video_uri(eps: &Vec<GoogleEntryPoint>) -> (r: Option<String>)
    ensures
        opt_view(r) == match first_video(eps@) {
            Some(ep) => opt_view(ep.uri),
            None => None,
        },
{
    let mut i: usize = 0;
    assert(eps@.skip(0) =~= eps@);
    while i < eps.len()
        invariant
            i <= eps.len(),
            first_video(eps@) == first_video(eps@.skip(i as int)),
        decreases eps.len() - i,
    {
        assert(eps@.skip(i as int)[0] == eps@[i as int]);
        let is_video = match &eps[i].entry_point_type {
            Some(t) => eq_str(&chars_of(t.as_str()), "video"),
            None => false,
        };
        if is_video {
            return copy_opt(&eps[i].uri);
        }
        assert(eps@.skip(i as int).drop_first() =~= eps@.skip(i + 1));
        i = i + 1;
    }
    None
}

fn google_join_url(event: &GoogleEvent) -> (r: Option<String>)
    ensures
        opt_view(r) == google_join_spec(*event),
{
    let conference = match &event.conference_data {
        Some(c) => match first_video_uri(&c.entry_points) {
            Some(uri) => safe_http_url(uri.as_str()),
            None => None,
        },
        None => None,
    };
    match conference {
        Some(u) => Some(u),
        None => safe_opt_link(&event.hangout_link),
    }
}

/// A Google event as a calendar event, unless it is cancelled, its times are unusable, or its
/// start lies within a day of the ends of chrono's range, where no time zone can read it.
pub fn map_google_event(event: &GoogleEvent) -> (r: Option<CalendarEvent>)
    ensures
        r is None <==> google_skipped(*event),
        r matches Some(x) ==> exists|local: LocalView|
            x@ == #[trigger] google_event_spec(*event, local) && local_reading(
                google_start_secs(*event),
                local,
            ),
{
    let cancelled = match &event.status {
        Some(st) => eq_str(&chars_of(st.as_str()), "cancelled"),
        None => false,
    };
    if cancelled {
        return None;
    }
    let (start, end, all_day, all_day_date) = match parse_google_range(&event.start, &event.end) {
        Some(range) => range,
        None => return None,
    };
    if !is_placeable(&start) {
        return None;
    }
    let fields = RawEventFields {
        id: event.id.clone(),
        ical_uid: copy_opt(&event.ical_uid),
        title: copy_opt(&event.summary),
        provider: from_str("google"),
        status: from_str("confirmed"),
        description: copy_opt(&event.description),
        location: copy_opt(&event.location),
        join_url: google_join_url(event),
        event_url: safe_opt_link(&event.html_link),
    };
    assert(fields.raw() == google_raw(*event));
    let r = finalize_event(&fields, &start, &end, all_day, &all_day_date);
    let ghost local = choose|local: LocalView| r@ == #[trigger] finalize_spec(
        fields.raw(),
        moment_view(start),
        moment_view(end),
        all_day,
        day_opt_view(all_day_date),
        local,
    ) && local_reading(start.secs_spec() as int, local);
    assert(r@ == google_event_spec(*event, local));
    Some(r)
}

/// The meeting link of an Outlook event: the online meeting's join URL, else the online
/// meeting URL, each kept only when it is a safe `http(s)` link.
pub open spec fn outlook_join_spec(e: OutlookEvent) -> Option<Seq<char>> {
    match safe_link(opt_view(e.online_meeting_join_url)) {
        Some(u) => Some(u),
        None => safe_link(opt_view(e.online_meeting_url)),
    }
}

/// An Outlook event is dropped when it is cancelled, lacks a time, or does not end after it
/// starts.
pub open spec fn outlook_skipped(e: OutlookEvent) -> bool {
    ||| e.is_cancelled
    ||| e.start_date_time is None
    ||| e.end_date_time is None
    ||| outlook_instant_spec(e.start_date_time->0@) is None
    ||| outlook_instant_spec(e.end_date_time->0@) is None
    ||| !later(
        outlook_instant_spec(e.end_date_time->0@)->0,
        outlook_instant_spec(e.start_date_time->0@)->0,
    )
    ||| !placeable(outlook_start_secs(e))
}

/// The start, in seconds, of an Outlook event.
pub open spec fn outlook_start_secs(e: OutlookEvent) -> int {
    let start = outlook_instant_spec(e.start_date_time->0@)->0;
    start.0 as int
}

pub open spec fn outlook_raw(e: OutlookEvent) -> RawEvent {
    RawEvent {
        id: e.id@,
        ical_uid: opt_view(e.ical_uid),
        title: opt_view(e.subject),
        provider: "outlook"@,
        status: "confirmed"@,
        description: opt_view(e.body_preview),
        location: opt_view(e.location_display_name),
        join_url: outlook_join_spec(e),
        event_url: safe_link(opt_view(e.web_link)),
    }
}

pub open spec fn outlook_event_spec(e: OutlookEvent, local: LocalView) -> EventView {
    finalize_spec(
        outlook_raw(e),
        outlook_instant_spec(e.start_date_time->0@)->0,
        outlook_instant_spec(e.end_date_time->0@)->0,
        e.is_all_day,
        None,
        local,
    )
}

/// An Outlook event as a calendar event, unless it is cancelled, its times are unusable, or
/// its start lies within a day of the ends of chrono's range, where no time zone can read it.
pub fn map_outlook_event(event: &OutlookEvent) -> (r: Option<CalendarEvent>)
    ensures
        r is None <==> outlook_skipped(*event),
        r matches Some(x) ==> exists|local: LocalView|
            x@ == #[trigger] outlook_event_spec(*event, local) && local_reading(
                outlook_start_secs(*event),
                local,
            ),
{
    if event.is_cancelled {
        return None;
    }
    let start = match &event.start_date_time {
        Some(t) => match parse_outlook_datetime(t.as_str()) {
            Some(m) => m,
            None => return None,
        },
        None => return None,
    };
    let end = match &event.end_date_time {
        Some(t) => match parse_outlook_datetime(t.as_str()) {
            Some(m) => m,
            None => return None,
        },
        None => return None,
    };
    if !is_later(&end, &start) || !is_placeable(&start) {
        return None;
    }
    let join_url = match safe_opt_link(&event.online_meeting_join_url) {
        Some(u) => Some(u),
        None => safe_opt_link(&event.online_meeting_url),
    };
    let fields = RawEventFields {
        id: event.id.clone(),
        ical_uid: copy_opt(&event.ical_uid),
        title: copy_opt(&event.subject),
        provider: from_str("outlook"),
        status: from_str("confirmed"),
        description: copy_opt(&event.body_preview),
        location: copy_opt(&event.location_display_name),
        join_url,
        event_url: safe_opt_link(&event.web_link),
    };
    assert(fields.raw() == outlook_raw(*event));
    let none: Option<Day> = None;
    let r = finalize_event(&fields, &start, &end, event.is_all_day, &none);
    let ghost local = choose|local: LocalView| r@ == #[trigger] finalize_spec(
        fields.raw(),
        moment_view(start),
        moment_view(end),
        event.is_all_day,
        day_opt_view(none),
        local,
    ) && local_reading(start.secs_spec() as int, local);
    assert(r@ == outlook_event_spec(*event, local));
    Some(r)
}


// ---------------------------------------------------------------------------
// Ordering and de-duplicating events
// ---------------------------------------------------------------------------

/// Whether `a` comes before `b` in code point order (the byte order of their UTF-8, which is
/// how `String` compares).
pub open spec fn chars_less(a: Seq<char>, b: Seq<char>) -> bool
    decreases a.len(),
{
    if a.len() == 0 {
        b.len() > 0
    } else if b.len() == 0 {
        false
    } else if a[0] != b[0] {
        (a[0] as u32) < (b[0] as u32)
    } else {
        chars_less(a.drop_first(), b.drop_first())
    }
}

proof fn lemma_chars_less_skip(a: Seq<char>, b: Seq<char>, i: int)
    requires
        0 <= i <= a.len(),
        i <= b.len(),
        a.take(i) == b.take(i),
    ensures
        chars_less(a, b) == chars_less(a.skip(i), b.skip(i)),
    decreases i,
{
    if i > 0 {
        assert(a[0] == a.take(i)[0]);
        assert(b[0] == b.take(i)[0]);
        assert(a.drop_first().take(i - 1) =~= a.take(i).drop_first());
        assert(b.drop_first().take(i - 1) =~= b.take(i).drop_first());
        lemma_chars_less_skip(a.drop_first(), b.drop_first(), i - 1);
        assert(a.drop_first().skip(i - 1) =~= a.skip(i));
        assert(b.drop_first().skip(i - 1) =~= b.skip(i));
    } else {
        assert(a.skip(0) =~= a);
        assert(b.skip(0) =~= b);
    }
}

fn text_less(a: &String, b: &String) -> (r: bool)
    ensures
        r == chars_less(a@, b@),
{
    let x = chars_of(a.as_str());
    let y = chars_of(b.as_str());
    let mut i: usize = 0;
    while i < x.len() && i < y.len() && x[i] == y[i]
        invariant
            i <= x.len(),
            i <= y.len(),
            x@.take(i as int) == y@.take(i as int),
        decreases x.len() - i,
    {
        assert(x@.take(i + 1) =~= y@.take(i + 1));
        i = i + 1;
    }
    proof {
        lemma_chars_less_skip(x@, y@, i as int);
    }
    if i == x.len() {
        i < y.len()
    } else if i == y.len() {
        false
    } else {
        proof {
            assert(x@.skip(i as int)[0] == x@[i as int]);
            assert(y@.skip(i as int)[0] == y@[i as int]);
        }
        (x[i] as u32) < (y[i] as u32)
    }
}

/// The order of events: by start, then (when `by_title`) by title.
pub open spec fn event_less(a: EventView, b: EventView, by_title: bool) -> bool {
    a.start_unix < b.start_unix || (by_title && a.start_unix == b.start_unix && chars_less(
        a.title,
        b.title,
    ))
}

/// The first position of `s` whose event comes after `x`.
pub open spec fn event_insert_position(s: Seq<EventView>, x: EventView, by_title: bool) -> int
    decreases s.len(),
{
    if s.len() == 0 {
        0
    } else if event_less(x, s[0], by_title) {
        0
    } else {
        1 + event_insert_position(s.drop_first(), x, by_title)
    }
}

/// A stable sort of events in `event_less` order.
pub open spec fn sort_events_spec(s: Seq<EventView>, by_title: bool) -> Seq<EventView>
    decreases s.len(),
{
    if s.len() == 0 {
        s
    } else {
        let r = sort_events_spec(s.drop_last(), by_title);
        r.insert(event_insert_position(r, s.last(), by_title), s.last())
    }
}

proof fn lemma_event_insert_position(s: Seq<EventView>, x: EventView, by_title: bool, j: int)
    requires
        0 <= j <= s.len(),
        forall|k: int| 0 <= k < j ==> !event_less(x, #[trigger] s[k], by_title),
        j == s.len() || event_less(x, s[j], by_title),
    ensures
        event_insert_position(s, x, by_title) == j,
    decreases j,
{
    if j > 0 {
        assert forall|k: int| 0 <= k < j - 1 implies !event_less(x, #[trigger] s.drop_first()[k], by_title) by {
            assert(s.drop_first()[k] == s[k + 1]);
        }
        lemma_event_insert_position(s.drop_first(), x, by_title, j - 1);
    }
}

fn event_less_exec(a: &CalendarEvent, b: &CalendarEvent, by_title: bool) -> (r: bool)
    ensures
        r == event_less(a@, b@, by_title),
{
    a.start_unix < b.start_unix || (by_title && a.start_unix == b.start_unix && text_less(
        &a.title,
        &b.title,
    ))
}

/// Sorts events by start (and title when `by_title`), equal events keeping their order.
fn sort_events(events: Vec<CalendarEvent>, by_title: bool) -> (r: Vec<CalendarEvent>)
    ensures
        views(r@) == sort_events_spec(views(events@), by_title),
{
    let ghost all = views(events@);
    let mut rest = events;
    let mut out: Vec<CalendarEvent> = Vec::new();
    let ghost k: int = 0;
    while rest.len() > 0
        invariant
            0 <= k <= all.len(),
            views(rest@) == all.skip(k),
            views(out@) == sort_events_spec(all.take(k), by_title),
        decreases rest.len(),
    {
        assert(views(rest@).len() == rest@.len());
        assert(k < all.len());
        let ghost before = rest@;
        let x = rest.remove(0);
        assert(rest@ =~= before.skip(1));
        assert forall|q: int| 0 <= q < rest@.len() implies #[trigger] views(rest@)[q] == all.skip(k + 1)[q] by {
            assert(views(rest@)[q] == views(before)[q + 1]);
        }
        assert(all.skip(k)[0] == x@);
        let mut j: usize = 0;
        while j < out.len() && !event_less_exec(&x, &out[j], by_title)
            invariant
                j <= out.len(),
                forall|q: int| 0 <= q < j ==> !event_less(x@, #[trigger] views(out@)[q], by_title),
            decreases out.len() - j,
        {
            j = j + 1;
        }
        proof {
            lemma_event_insert_position(views(out@), x@, by_title, j as int);
            assert(all.take(k + 1).drop_last() =~= all.take(k));
            assert(all.take(k + 1).last() == x@);
        }
        let ghost prev = out@;
        out.insert(j, x);
        assert(views(out@) =~= views(prev).insert(j as int, x@));
        proof {
            assert(views(rest@) =~= all.skip(k + 1));
            k = k + 1;
        }
    }
    assert(all.take(k) =~= all);
    out
}

/// Whether two events are the same occurrence: same start and the same iCalendar id, or,
/// when either lacks one, the same provider and id.
pub open spec fn same_occurrence(a: EventView, b: EventView) -> bool {
    a.start_unix == b.start_unix && match (a.ical_uid, b.ical_uid) {
        (Some(x), Some(y)) => x == y,
        _ => a.provider == b.provider && a.id == b.id,
    }
}

/// Drops each event that is the same occurrence as the event kept just before it.
pub open spec fn dedup_events_spec(s: Seq<EventView>) -> Seq<EventView>
    decreases s.len(),
{
    if s.len() == 0 {
        s
    } else {
        let r = dedup_events_spec(s.drop_last());
        if r.len() > 0 && same_occurrence(s.last(), r.last()) {
            r
        } else {
            r.push(s.last())
        }
    }
}

/// Events sorted by start and title, repeated occurrences dropped.
pub open spec fn normalize_events_spec(s: Seq<EventView>) -> Seq<EventView> {
    dedup_events_spec(sort_events_spec(s, true))
}

fn same_occurrence_exec(a: &CalendarEvent, b: &CalendarEvent) -> (r: bool)
    ensures
        r == same_occurrence(a@, b@),
{
    if a.start_unix != b.start_unix {
        return false;
    }
    match (&a.ical_uid, &b.ical_uid) {
        (Some(x), Some(y)) => *x == *y,
        _ => a.provider == b.provider && a.id == b.id,
    }
}

/// Sorts events by start and title and drops repeated occurrences.
pub fn normalize_events(events: Vec<CalendarEvent>) -> (r: Vec<CalendarEvent>)
    ensures
        views(r@) == normalize_events_spec(views(events@)),
{
    let sorted = sort_events(events, true);
    let ghost all = views(sorted@);
    let mut rest = sorted;
    let mut out: Vec<CalendarEvent> = Vec::new();
    let ghost k: int = 0;
    while rest.len() > 0
        invariant
            0 <= k <= all.len(),
            views(rest@) == all.skip(k),
            views(out@) == dedup_events_spec(all.take(k)),
        decreases rest.len(),
    {
        assert(views(rest@).len() == rest@.len());
        assert(k < all.len());
        let ghost before = rest@;
        let x = rest.remove(0);
        assert(rest@ =~= before.skip(1));
        assert forall|q: int| 0 <= q < rest@.len() implies #[trigger] views(rest@)[q] == all.skip(k + 1)[q] by {
            assert(views(rest@)[q] == views(before)[q + 1]);
        }
        assert(all.skip(k)[0] == x@);
        proof {
            assert(all.take(k + 1).drop_last() =~= all.take(k));
            assert(all.take(k + 1).last() == x@);
            assert(views(rest@) =~= all.skip(k + 1));
        }
        let keep = if out.len() > 0 {
            !same_occurrence_exec(&x, &out[out.len() - 1])
        } else {
            true
        };
        if keep {
            let ghost prev = out@;
            out.push(x);
            assert(views(out@) =~= views(prev).push(x@));
        }
        proof {
            k = k + 1;
        }
    }
    assert(all.take(k) =~= all);
    out
}

pub open spec fn views(s: Seq<CalendarEvent>) -> Seq<EventView> {
    s.map_values(|e: CalendarEvent| e@)
}

/// The Google events that are not dropped, each read with the local date and time of its
/// start that `locals` gives at its position.
pub open spec fn google_mapped(items: Seq<GoogleEvent>, locals: Seq<LocalView>) -> Seq<EventView>
    decreases items.len(),
{
    if items.len() == 0 {
        Seq::empty()
    } else {
        let r = google_mapped(items.drop_last(), locals);
        if google_skipped(items.last()) {
            r
        } else {
            r.push(google_event_spec(items.last(), locals[items.len() - 1]))
        }
    }
}

/// The Outlook events that are not dropped, each read with the local date and time of its
/// start that `locals` gives at its position.
pub open spec fn outlook_mapped(items: Seq<OutlookEvent>, locals: Seq<LocalView>) -> Seq<EventView>
    decreases items.len(),
{
    if items.len() == 0 {
        Seq::empty()
    } else {
        let r = outlook_mapped(items.drop_last(), locals);
        if outlook_skipped(items.last()) {
            r
        } else {
            r.push(outlook_event_spec(items.last(), locals[items.len() - 1]))
        }
    }
}

proof fn lemma_google_mapped_prefix(items: Seq<GoogleEvent>, a: Seq<LocalView>, b: Seq<LocalView>)
    requires
        forall|i: int| 0 <= i < items.len() ==> a[i] == b[i],
    ensures
        google_mapped(items, a) == google_mapped(items, b),
    decreases items.len(),
{
    if items.len() > 0 {
        lemma_google_mapped_prefix(items.drop_last(), a, b);
    }
}

proof fn lemma_outlook_mapped_prefix(items: Seq<OutlookEvent>, a: Seq<LocalView>, b: Seq<LocalView>)
    requires
        forall|i: int| 0 <= i < items.len() ==> a[i] == b[i],
    ensures
        outlook_mapped(items, a) == outlook_mapped(items, b),
    decreases items.len(),
{
    if items.len() > 0 {
        lemma_outlook_mapped_prefix(items.drop_last(), a, b);
    }
}

/// The calendar events of a Google Calendar response, normalised.
pub fn google_calendar_events(items: &Vec<GoogleEvent>) -> (r: Vec<CalendarEvent>)
    ensures
        exists|locals: Seq<LocalView>|
            locals.len() == items.len() && views(r@) == normalize_events_spec(
                #[trigger] google_mapped(items@, locals),
            ) && forall|i: int|
                0 <= i < items.len() && !google_skipped(#[trigger] items@[i]) ==> local_reading(
                    google_start_secs(items@[i]),
                    locals[i],
                ),
{
    let mut mapped: Vec<CalendarEvent> = Vec::new();
    let ghost mut locals: Seq<LocalView> = Seq::empty();
    let mut i: usize = 0;
    while i < items.len()
        invariant
            i <= items.len(),
            locals.len() == i,
            views(mapped@) == google_mapped(items@.take(i as int), locals),
            forall|k: int|
                0 <= k < i && !google_skipped(#[trigger] items@[k]) ==> local_reading(
                    google_start_secs(items@[k]),
                    locals[k],
                ),
        decreases items.len() - i,
    {
        let item = &items[i];
        let found = map_google_event(item);
        let ghost chosen: LocalView = if found is Some {
            choose|local: LocalView|
                found->0@ == #[trigger] google_event_spec(*item, local) && local_reading(
                    google_start_secs(*item),
                    local,
                )
        } else {
            arbitrary()
        };
        proof {
            let t = items@.take(i + 1);
            assert(t.drop_last() =~= items@.take(i as int));
            assert(t.last() == *item);
            lemma_google_mapped_prefix(items@.take(i as int), locals, locals.push(chosen));
            locals = locals.push(chosen);
        }
        match found {
            Some(x) => {
                let ghost prev = mapped@;
                mapped.push(x);
                assert(views(mapped@) =~= views(prev).push(x@));
            },
            None => {},
        }
        i = i + 1;
    }
    assert(items@.take(items.len() as int) =~= items@);
    normalize_events(mapped)
}

/// The calendar events of a Microsoft Graph response, normalised.
pub fn outlook_calendar_events(items: &Vec<OutlookEvent>) -> (r: Vec<CalendarEvent>)
    ensures
        exists|locals: Seq<LocalView>|
            locals.len() == items.len() && views(r@) == normalize_events_spec(
                #[trigger] outlook_mapped(items@, locals),
            ) && forall|i: int|
                0 <= i < items.len() && !outlook_skipped(#[trigger] items@[i]) ==> local_reading(
                    outlook_start_secs(items@[i]),
                    locals[i],
                ),
{
    let mut mapped: Vec<CalendarEvent> = Vec::new();
    let ghost mut locals: Seq<LocalView> = Seq::empty();
    let mut i: usize = 0;
    while i < items.len()
        invariant
            i <= items.len(),
            locals.len() == i,
            views(mapped@) == outlook_mapped(items@.take(i as int), locals),
            forall|k: int|
                0 <= k < i && !outlook_skipped(#[trigger] items@[k]) ==> local_reading(
                    outlook_start_secs(items@[k]),
                    locals[k],
                ),
        decreases items.len() - i,
    {
        let item = &items[i];
        let found = map_outlook_event(item);
        let ghost chosen: LocalView = if found is Some {
            choose|local: LocalView|
                found->0@ == #[trigger] outlook_event_spec(*item, local) && local_reading(
                    outlook_start_secs(*item),
                    local,
                )
        } else {
            arbitrary()
        };
        proof {
            let t = items@.take(i + 1);
            assert(t.drop_last() =~= items@.take(i as int));
            assert(t.last() == *item);
            lemma_outlook_mapped_prefix(items@.take(i as int), locals, locals.push(chosen));
            locals = locals.push(chosen);
        }
        match found {
            Some(x) => {
                let ghost prev = mapped@;
                mapped.push(x);
                assert(views(mapped@) =~= views(prev).push(x@));
            },
            None => {},
        }
        i = i + 1;
    }
    assert(items@.take(items.len() as int) =~= items@);
    normalize_events(mapped)
}


// ---------------------------------------------------------------------------
// The day's agenda
// ---------------------------------------------------------------------------

/// A summary of the day's events.
pub struct CalendarAgenda {
    pub date_label: String,
    pub headline: String,
    pub total_events: usize,
    pub remaining_events: usize,
    pub meeting_minutes: i64,
    pub conflict_count: usize,
    pub next_event_title: Option<String>,
    pub next_event_time: Option<String>,
    pub minutes_until_next: Option<i64>,
}

pub ghost struct AgendaView {
    pub date_label: Seq<char>,
    pub headline: Seq<char>,
    pub total_events: int,
    pub remaining_events: int,
    pub meeting_minutes: int,
    pub conflict_count: int,
    pub next_event_title: Option<Seq<char>>,
    pub next_event_time: Option<Seq<char>>,
    pub minutes_until_next: Option<int>,
}

impl View for CalendarAgenda {
    type V = AgendaView;

    open spec fn view(&self) -> AgendaView {
        AgendaView {
            date_label: self.date_label@,
            headline: self.headline@,
            total_events: self.total_events as int,
            remaining_events: self.remaining_events as int,
            meeting_minutes: self.meeting_minutes as int,
            conflict_count: self.conflict_count as int,
            next_event_title: opt_view(self.next_event_title),
            next_event_time: opt_view(self.next_event_time),
            minutes_until_next: match self.minutes_until_next {
                Some(m) => Some(m as int),
                None => None,
            },
        }
    }
}

/// The events of `s` that satisfy `keep`, in order.
pub open spec fn filter_events(s: Seq<EventView>, keep: spec_fn(EventView) -> bool) -> Seq<
    EventView,
>
    decreases s.len(),
{
    if s.len() == 0 {
        s
    } else {
        let r = filter_events(s.drop_last(), keep);
        if keep(s.last()) {
            r.push(s.last())
        } else {
            r
        }
    }
}

/// The day's events that are not cancelled, by start.
pub open spec fn today_spec(events: Seq<EventView>, day_key: Seq<char>) -> Seq<EventView> {
    sort_events_spec(filter_events(events, today_pred(day_key)), false)
}

/// The events of the day that have not ended at `now`.
pub open spec fn remaining_spec(today: Seq<EventView>, now: i64) -> Seq<EventView> {
    filter_events(today, remaining_pred(now))
}

/// The first timed event starting at or after `now`.
pub open spec fn first_upcoming(s: Seq<EventView>, now: i64) -> Option<EventView>
    decreases s.len(),
{
    if s.len() == 0 {
        None
    } else if !s[0].all_day && s[0].start_unix >= now {
        Some(s[0])
    } else {
        first_upcoming(s.drop_first(), now)
    }
}

/// The next event: the first timed one still to start, else the first one not ended.
pub open spec fn next_spec(remaining: Seq<EventView>, now: i64) -> Option<EventView> {
    match first_upcoming(remaining, now) {
        Some(e) => Some(e),
        None => if remaining.len() > 0 {
            Some(remaining[0])
        } else {
            None
        },
    }
}

/// Whole minutes of an event (none when it ends before it starts).
pub open spec fn event_minutes(e: EventView) -> int {
    if e.end_unix - e.start_unix > 0 {
        (e.end_unix - e.start_unix) / 60
    } else {
        0
    }
}

/// Total minutes of the timed events of `s`.
pub open spec fn meeting_minutes_spec(s: Seq<EventView>) -> int
    decreases s.len(),
{
    if s.len() == 0 {
        0
    } else {
        meeting_minutes_spec(s.drop_last()) + if s.last().all_day {
            0
        } else {
            event_minutes(s.last())
        }
    }
}

/// Counting overlaps in start order: (overlaps so far, latest end so far).
pub open spec fn conflict_scan(s: Seq<EventView>) -> (int, int)
    decreases s.len(),
{
    if s.len() == 0 {
        (0, i64::MIN as int)
    } else {
        let (c, latest) = conflict_scan(s.drop_last());
        let e = s.last();
        (
            c + if (e.start_unix as int) < latest {
                1int
            } else {
                0int
            },
            if latest >= e.end_unix {
                latest
            } else {
                e.end_unix as int
            },
        )
    }
}

/// `"s"` unless the count is one.
pub open spec fn plural(n: int) -> Seq<char> {
    if n == 1 {
        Seq::empty()
    } else {
        "s"@
    }
}

pub open spec fn headline_spec(total: int, next: Option<EventView>) -> Seq<char> {
    if total == 0 {
        "Your day is clear"@
    } else {
        match next {
            Some(e) => crate::text::decimal(total) + " event"@ + plural(total) + ". Next: "@
                + e.title + " at "@ + e.time_label,
            None => crate::text::decimal(total) + " event"@ + plural(total) + " complete for today"@,
        }
    }
}

/// The agenda of the day `day_key` at `now`.
pub open spec fn agenda_spec(
    events: Seq<EventView>,
    now: i64,
    day_key: Seq<char>,
    date_label: Seq<char>,
) -> AgendaView {
    let today = today_spec(events, day_key);
    let remaining = remaining_spec(today, now);
    let next = next_spec(remaining, now);
    let timed = sort_events_spec(filter_events(today, timed_pred()), false);
    AgendaView {
        date_label,
        headline: headline_spec(today.len() as int, next),
        total_events: today.len() as int,
        remaining_events: remaining.len() as int,
        meeting_minutes: meeting_minutes_spec(today),
        conflict_count: conflict_scan(timed).0,
        next_event_title: match next {
            Some(e) => Some(e.title),
            None => None,
        },
        next_event_time: match next {
            Some(e) => Some(e.time_label),
            None => None,
        },
        minutes_until_next: match next {
            Some(e) => if e.start_unix >= now {
                Some((e.start_unix - now + 59) / 60)
            } else {
                None
            },
            None => None,
        },
    }
}

/// The agenda arithmetic stays within `i64`: each timed event's length, the total of their
/// minutes, and the minutes until the next event.
pub open spec fn agenda_in_range(events: Seq<EventView>, now: i64, day_key: Seq<char>) -> bool {
    let today = today_spec(events, day_key);
    let next = next_spec(remaining_spec(today, now), now);
    &&& forall|i: int|
        0 <= i < today.len() && !(#[trigger] today[i]).all_day ==> i64::MIN <= today[i].end_unix
            - today[i].start_unix <= i64::MAX
    &&& meeting_minutes_spec(today) <= i64::MAX
    &&& match next {
        Some(e) => e.start_unix >= now ==> e.start_unix - now + 59 <= i64::MAX,
        None => true,
    }
}

proof fn lemma_meeting_minutes_prefix(s: Seq<EventView>, i: int)
    requires
        0 <= i <= s.len(),
    ensures
        0 <= meeting_minutes_spec(s.take(i)) <= meeting_minutes_spec(s),
    decreases s.len() - i,
{
    if i < s.len() {
        lemma_meeting_minutes_prefix(s, i + 1);
        assert(s.take(i + 1).drop_last() =~= s.take(i));
        lemma_meeting_minutes_nonneg(s.take(i));
    } else {
        assert(s.take(i) =~= s);
        lemma_meeting_minutes_nonneg(s);
    }
}

proof fn lemma_meeting_minutes_nonneg(s: Seq<EventView>)
    ensures
        0 <= meeting_minutes_spec(s),
    decreases s.len(),
{
    if s.len() > 0 {
        lemma_meeting_minutes_nonneg(s.drop_last());
    }
}

/// The predicates by which the agenda selects events: the day's events not cancelled, the
/// events not yet ended, the timed events.
pub open spec fn today_pred(day_key: Seq<char>) -> spec_fn(EventView) -> bool {
    |e: EventView| e.day_key == day_key && e.status != "cancelled"@
}

pub open spec fn remaining_pred(now: i64) -> spec_fn(EventView) -> bool {
    |e: EventView| e.end_unix > now
}

pub open spec fn timed_pred() -> spec_fn(EventView) -> bool {
    |e: EventView| !e.all_day
}

pub open spec fn select_pred(which: u8, day_key: Seq<char>, now: i64) -> spec_fn(EventView) -> bool {
    if which == 0 {
        today_pred(day_key)
    } else if which == 1 {
        remaining_pred(now)
    } else {
        timed_pred()
    }
}

/// Copies of the events that the predicate `which` selects.
fn filter_copies(events: &[CalendarEvent], which: u8, day_key: &Vec<char>, now_unix: i64) -> (r: Vec<
    CalendarEvent,
>)
    ensures
        views(r@) == filter_events(views(events@), select_pred(which, day_key@, now_unix)),
{
    let ghost pred = select_pred(which, day_key@, now_unix);
    let mut out: Vec<CalendarEvent> = Vec::new();
    let mut i: usize = 0;
    while i < events.len()
        invariant
            i <= events.len(),
            pred == select_pred(which, day_key@, now_unix),
            views(out@) == filter_events(views(events@).take(i as int), pred),
        decreases events.len() - i,
    {
        let e = &events[i];
        let keep = if which == 0 {
            crate::text::chars_eq(&chars_of(e.day_key.as_str()), day_key) && !eq_str(
                &chars_of(e.status.as_str()),
                "cancelled",
            )
        } else if which == 1 {
            e.end_unix > now_unix
        } else {
            !e.all_day
        };
        assert(keep == pred(e@));
        proof {
            assert(views(events@).take(i + 1).drop_last() =~= views(events@).take(i as int));
            assert(views(events@).take(i + 1).last() == e@);
        }
        if keep {
            let c = e.duplicate();
            let ghost prev = out@;
            out.push(c);
            assert(views(out@) =~= views(prev).push(c@));
        }
        i = i + 1;
    }
    assert(views(events@).take(events.len() as int) =~= views(events@));
    out
}


fn find_next(remaining: &Vec<CalendarEvent>, now_unix: i64) -> (r: Option<CalendarEvent>)
    ensures
        match r {
            Some(e) => next_spec(views(remaining@), now_unix) == Some(e@),
            None => next_spec(views(remaining@), now_unix) is None,
        },
{
    let ghost all = views(remaining@);
    let mut i: usize = 0;
    assert(all.skip(0) =~= all);
    while i < remaining.len()
        invariant
            i <= remaining.len(),
            all == views(remaining@),
            first_upcoming(all, now_unix) == first_upcoming(all.skip(i as int), now_unix),
        decreases remaining.len() - i,
    {
        let e = &remaining[i];
        assert(all.skip(i as int)[0] == e@);
        if !e.all_day && e.start_unix >= now_unix {
            return Some(e.duplicate());
        }
        assert(all.skip(i as int).drop_first() =~= all.skip(i + 1));
        i = i + 1;
    }
    if remaining.len() > 0 {
        Some(remaining[0].duplicate())
    } else {
        None
    }
}

fn push_count_phrase(out: &mut Vec<char>, n: usize)
    ensures
        final(out)@ == old(out)@ + crate::text::decimal(n as int) + " event"@ + plural(n as int),
{
    crate::text::push_decimal_u64(out, n as u64);
    crate::text::push_str(out, " event");
    if n != 1 {
        crate::text::push_str(out, "s");
    }
    assert(final(out)@ =~= old(out)@ + crate::text::decimal(n as int) + " event"@ + plural(n as int));
}

/// The agenda of the day `day_key` (as `%Y-%m-%d`) at `now_unix`: its events that are not
/// cancelled, how many remain, the minutes of meetings, the overlaps, and the next event.
pub fn build_agenda_at(events: &[CalendarEvent], now_unix: i64, day_key: &str, date_label: &str) -> (r:
    CalendarAgenda)
    requires
        agenda_in_range(views(events@), now_unix, day_key@),
    ensures
        r@ == agenda_spec(views(events@), now_unix, day_key@, date_label@),
{
    let key = chars_of(day_key);
    let today = sort_events(filter_copies(events, 0, &key, now_unix), false);
    let ghost t = views(today@);
    assert(t == today_spec(views(events@), day_key@));
    let remaining = filter_copies(today.as_slice(), 1, &key, now_unix);
    let next = find_next(&remaining, now_unix);

    let mut meeting_minutes: i64 = 0;
    let mut i: usize = 0;
    while i < today.len()
        invariant
            i <= today.len(),
            t == views(today@),
            t == today_spec(views(events@), day_key@),
            agenda_in_range(views(events@), now_unix, day_key@),
            meeting_minutes == meeting_minutes_spec(t.take(i as int)),
        decreases today.len() - i,
    {
        let e = &today[i];
        proof {
            assert(t[i as int] == e@);
            assert(t.take(i + 1).drop_last() =~= t.take(i as int));
            assert(t.take(i + 1).last() == e@);
            lemma_meeting_minutes_prefix(t, i + 1);
        }
        if !e.all_day {
            let length = e.end_unix - e.start_unix;
            let minutes = if length > 0 {
                length / 60
            } else {
                0
            };
            meeting_minutes = meeting_minutes + minutes;
        }
        i = i + 1;
    }
    assert(t.take(today.len() as int) =~= t);

    let timed = sort_events(filter_copies(today.as_slice(), 2, &key, now_unix), false);
    let ghost tm = views(timed@);
    let mut conflict_count: usize = 0;
    let mut latest_end: i64 = i64::MIN;
    let mut j: usize = 0;
    while j < timed.len()
        invariant
            j <= timed.len(),
            tm == views(timed@),
            conflict_count <= j,
            (conflict_count as int, latest_end as int) == conflict_scan(tm.take(j as int)),
        decreases timed.len() - j,
    {
        let e = &timed[j];
        proof {
            assert(tm.take(j + 1).drop_last() =~= tm.take(j as int));
            assert(tm.take(j + 1).last() == e@);
        }
        if e.start_unix < latest_end {
            conflict_count = conflict_count + 1;
        }
        if latest_end < e.end_unix {
            latest_end = e.end_unix;
        }
        j = j + 1;
    }
    assert(tm.take(timed.len() as int) =~= tm);

    let total = today.len();
    let mut headline: Vec<char> = Vec::new();
    if total == 0 {
        crate::text::push_str(&mut headline, "Your day is clear");
    } else {
        push_count_phrase(&mut headline, total);
        match &next {
            Some(e) => {
                crate::text::push_str(&mut headline, ". Next: ");
                crate::text::push_str(&mut headline, e.title.as_str());
                crate::text::push_str(&mut headline, " at ");
                crate::text::push_str(&mut headline, e.time_label.as_str());
            },
            None => {
                crate::text::push_str(&mut headline, " complete for today");
            },
        }
    }
    let minutes_until_next = match &next {
        Some(e) => if e.start_unix >= now_unix {
            Some((e.start_unix - now_unix + 59) / 60)
        } else {
            None
        },
        None => None,
    };
    let r = CalendarAgenda {
        date_label: from_str(date_label),
        headline: string_of(&headline),
        total_events: total,
        remaining_events: remaining.len(),
        meeting_minutes,
        conflict_count,
        next_event_title: match &next {
            Some(e) => Some(e.title.clone()),
            None => None,
        },
        next_event_time: match &next {
            Some(e) => Some(e.time_label.clone()),
            None => None,
        },
        minutes_until_next,
    };
    assert(r@ =~= agenda_spec(views(events@), now_unix, day_key@, date_label@));
    r
}


/// Whether the agenda arithmetic for these inputs stays within `i64`.
pub fn agenda_fits(events: &[CalendarEvent], now_unix: i64, day_key: &str) -> (r: bool)
    ensures
        r == agenda_in_range(views(events@), now_unix, day_key@),
{
    let key = chars_of(day_key);
    let today = sort_events(filter_copies(events, 0, &key, now_unix), false);
    let ghost t = views(today@);
    assert(t == today_spec(views(events@), day_key@));
    let mut sum: i64 = 0;
    let mut i: usize = 0;
    while i < today.len()
        invariant
            i <= today.len(),
            t == views(today@),
            t == today_spec(views(events@), day_key@),
            sum == meeting_minutes_spec(t.take(i as int)),
            forall|k: int|
                0 <= k < i && !(#[trigger] t[k]).all_day ==> i64::MIN <= t[k].end_unix
                    - t[k].start_unix <= i64::MAX,
        decreases today.len() - i,
    {
        let e = &today[i];
        proof {
            assert(t[i as int] == e@);
            assert(t.take(i + 1).drop_last() =~= t.take(i as int));
            assert(t.take(i + 1).last() == e@);
            lemma_meeting_minutes_prefix(t, i + 1);
        }
        if !e.all_day {
            let length = (e.end_unix as i128) - (e.start_unix as i128);
            if length < i64::MIN as i128 || length > i64::MAX as i128 {
                assert(!t[i as int].all_day);
                return false;
            }
            let minutes: i64 = if length > 0 {
                (length / 60) as i64
            } else {
                0
            };
            if sum > i64::MAX - minutes {
                assert(meeting_minutes_spec(t.take(i + 1)) == sum + minutes);
                return false;
            }
            sum = sum + minutes;
        }
        i = i + 1;
    }
    assert(t.take(today.len() as int) =~= t);
    let remaining = filter_copies(today.as_slice(), 1, &key, now_unix);
    match find_next(&remaining, now_unix) {
        Some(e) => {
            if e.start_unix >= now_unix && (e.start_unix as i128) - (now_unix as i128) + 59
                > i64::MAX as i128 {
                return false;
            }
        },
        None => {},
    }
    true
}

/// What `build_agenda` gives when the clock reads `now` and the machine's UTC offset is
/// `offset`: the local day `day` is the civil day of `now + offset`, and the agenda is that
/// day's, or `None` when its arithmetic would overflow.
pub open spec fn agenda_outcome(
    r: Option<CalendarAgenda>,
    events: Seq<EventView>,
    now: i64,
    day: (i32, u32, u32),
    offset: i32,
) -> bool {
    let key = date_text(day.0, day.1, day.2, "%Y-%m-%d"@);
    let label = date_text(day.0, day.1, day.2, "%A, %B %-d"@);
    &&& -86400 < offset < 86400
    &&& days_from_civil(day.0 as int, day.1 as int, day.2 as int) == (now + offset) / 86400
    &&& match r {
        Some(a) => agenda_in_range(events, now, key) && a@ == agenda_spec(events, now, key, label),
        None => !agenda_in_range(events, now, key),
    }
}

/// The agenda of the local day at the instant `m`, read in the machine's time zone: when `m`
/// lies a day inside chrono's range, that day's agenda, or `None` when its arithmetic would
/// overflow `i64`; `None` otherwise. The offset comes from the machine, so only its bounds
/// are stated: under a day, with the day being the civil day of the instant moved by it.
pub fn agenda_at(events: &[CalendarEvent], m: &Moment) -> (r: Option<CalendarAgenda>)
    ensures
        placeable(m.secs_spec() as int) ==> exists|day: (i32, u32, u32), offset: i32|
            #[trigger] agenda_outcome(r, views(events@), m.secs_spec(), day, offset),
        !placeable(m.secs_spec() as int) ==> r is None,
{
    if !is_placeable(m) {
        return None;
    }
    let local = local_stamp(m, CLOCK_PATTERN);
    let key = format_day(&local.day, "%Y-%m-%d");
    let label = format_day(&local.day, "%A, %B %-d");
    let ghost day = local.day.ymd();
    let ghost offset = local.offset_secs;
    let now_unix = m.timestamp();
    if !agenda_fits(events, now_unix, key.as_str()) {
        assert(agenda_outcome(None, views(events@), now_unix, day, offset));
        return None;
    }
    let r = build_agenda_at(events, now_unix, key.as_str(), label.as_str());
    assert(agenda_outcome(Some(r), views(events@), now_unix, day, offset));
    Some(r)
}

/// The agenda of the current local day at the current time: `agenda_at` of the clock's
/// reading. The reading depends on the machine, so what holds is stated for every reading;
/// `None` also when the clock cannot be read (before 1970, or beyond chrono's range).
pub fn build_agenda(events: &[CalendarEvent]) -> (r: Option<CalendarAgenda>)
    ensures
        r is Some ==> exists|now: i64, day: (i32, u32, u32), offset: i32|
            #[trigger] agenda_outcome(r, views(events@), now, day, offset),
{
    match crate::clock::now() {
        Some(m) => agenda_at(events, &m),
        None => None,
    }
}

// ---------------------------------------------------------------------------
// The current week
// ---------------------------------------------------------------------------

/// Seconds in a day and in a week.
pub const DAY_SECONDS: i64 = 86400;

pub const WEEK_SECONDS: i64 = 604800;

/// The start, as a Unix time, of the local week (Monday 00:00 at the UTC offset
/// `offset_secs`) that holds the instant `now`. 1970-01-01 was a Thursday, three days after a
/// Monday.
pub open spec fn week_start_spec(now: int, offset_secs: int) -> int {
    let local_day = (now + offset_secs) / 86400;
    let from_monday = (local_day + 3) % 7;
    (local_day - from_monday) * 86400 - offset_secs
}

/// A multiple of a week large enough to make every representable local time positive.
const WEEK_SHIFT: i64 = 604800 * 16777216;

/// The bounds of the local week that holds `now_unix`: Monday 00:00 at the offset, and seven
/// days later. Times are those that chrono can represent (within 2^43 seconds of the epoch)
/// and offsets are less than a day.
pub fn week_bounds(now_unix: i64, offset_secs: i32) -> (r: (i64, i64))
    requires
        -0x800_0000_0000 <= now_unix <= 0x800_0000_0000,
        -86400 < offset_secs < 86400,
    ensures
        r.0 == week_start_spec(now_unix as int, offset_secs as int),
        r.1 == r.0 + 7 * 86400,
{
    let shifted = now_unix + (offset_secs as i64) + WEEK_SHIFT;
    let day = shifted / DAY_SECONDS;
    let from_monday = (day + 3) % 7;
    let start = (day - from_monday) * DAY_SECONDS - WEEK_SHIFT - (offset_secs as i64);
    proof {
        let n = now_unix as int + offset_secs as int;
        assert(shifted as int == n + 604800 * 16777216);
        assert((n + 604800 * 16777216) / 86400 == n / 86400 + 7 * 16777216) by (nonlinear_arith)
            requires -0x800_0000_0000 - 86400 <= n <= 0x800_0000_0000 + 86400;
        assert((n / 86400 + 7 * 16777216 + 3) % 7 == (n / 86400 + 3) % 7) by (nonlinear_arith);
    }
    (start, start + WEEK_SECONDS)
}


/// The week holds the instant: it starts at or before `now` and ends after it; its start is
/// a local midnight, and that local day is a Monday (1970-01-01 was a Thursday).
pub proof fn lemma_week_holds_now(now: int, offset_secs: int)
    ensures
        week_start_spec(now, offset_secs) <= now < week_start_spec(now, offset_secs) + 7 * 86400,
        (week_start_spec(now, offset_secs) + offset_secs) % 86400 == 0,
        ((week_start_spec(now, offset_secs) + offset_secs) / 86400 + 3) % 7 == 0,
{
    let n = now + offset_secs;
    let d = n / 86400;
    let f = (d + 3) % 7;
    assert(0 <= f < 7);
    assert(d * 86400 <= n < d * 86400 + 86400) by (nonlinear_arith)
        requires d == n / 86400;
    assert((d - f) * 86400 == d * 86400 - f * 86400) by (nonlinear_arith);
    assert(((d - f) * 86400) % 86400 == 0) by (nonlinear_arith);
    assert(((d - f) * 86400) / 86400 == d - f) by (nonlinear_arith);
    assert((d - f + 3) % 7 == 0) by (nonlinear_arith)
        requires f == (d + 3) % 7;
}

/// The bounds of the local week that holds `now_unix`, written in RFC 3339 at the offset
/// (the `timeMin`/`timeMax` of the calendar requests); `None` when a bound lies within a day of
/// the ends of chrono's range, where it cannot be written.
pub fn week_bounds_text(now_unix: i64, offset_secs: i32) -> (r: Option<(String, String)>)
    requires
        -0x800_0000_0000 <= now_unix <= 0x800_0000_0000,
        -86400 < offset_secs < 86400,
    ensures
        ({
            let start = week_start_spec(now_unix as int, offset_secs as int);
            &&& r matches Some((a, b)) ==> a@ == offset_rfc3339_text(start as i64, offset_secs)
                && b@ == offset_rfc3339_text((start + 7 * 86400) as i64, offset_secs)
            &&& r is None <==> !(placeable(start) && placeable(start + 7 * 86400))
        }),
{
    let (start, end) = week_bounds(now_unix, offset_secs);
    if !is_placeable_secs(start) || !is_placeable_secs(end) {
        return None;
    }
    let a = match rfc3339_at_offset(start, offset_secs) {
        Some(t) => t,
        None => return None,
    };
    let b = match rfc3339_at_offset(end, offset_secs) {
        Some(t) => t,
        None => return None,
    };
    Some((a, b))
}

// ---------------------------------------------------------------------------
// Laws of event lists
// ---------------------------------------------------------------------------

/// Events in order of start.
pub open spec fn starts_sorted(s: Seq<EventView>) -> bool {
    forall|i: int, j: int| 0 <= i < j < s.len() ==> s[i].start_unix <= s[j].start_unix
}

proof fn lemma_insert_position_facts(s: Seq<EventView>, x: EventView, by_title: bool)
    ensures
        0 <= event_insert_position(s, x, by_title) <= s.len(),
        forall|k: int|
            0 <= k < event_insert_position(s, x, by_title) ==> !event_less(
                x,
                #[trigger] s[k],
                by_title,
            ),
        event_insert_position(s, x, by_title) < s.len() ==> event_less(
            x,
            s[event_insert_position(s, x, by_title)],
            by_title,
        ),
    decreases s.len(),
{
    if s.len() > 0 && !event_less(x, s[0], by_title) {
        lemma_insert_position_facts(s.drop_first(), x, by_title);
        let p = event_insert_position(s, x, by_title);
        assert forall|k: int| 0 <= k < p implies !event_less(x, #[trigger] s[k], by_title) by {
            if k > 0 {
                assert(s[k] == s.drop_first()[k - 1]);
            }
        }
    }
}

proof fn lemma_sort_events_sorted(s: Seq<EventView>, by_title: bool)
    ensures
        starts_sorted(sort_events_spec(s, by_title)),
        sort_events_spec(s, by_title).len() == s.len(),
        forall|i: int|
            0 <= i < sort_events_spec(s, by_title).len() ==> s.contains(
                #[trigger] sort_events_spec(s, by_title)[i],
            ),
    decreases s.len(),
{
    if s.len() > 0 {
        let d = s.drop_last();
        let x = s.last();
        lemma_sort_events_sorted(d, by_title);
        let r = sort_events_spec(d, by_title);
        let p = event_insert_position(r, x, by_title);
        lemma_insert_position_facts(r, x, by_title);
        let t = r.insert(p, x);
        assert forall|i: int, j: int| 0 <= i < j < t.len() implies t[i].start_unix
            <= t[j].start_unix by {
            if j < p {
                assert(t[i] == r[i] && t[j] == r[j]);
            } else if j == p {
                assert(t[i] == r[i]);
                assert(!event_less(x, r[i], by_title));
            } else if i < p {
                assert(t[i] == r[i] && t[j] == r[j - 1]);
            } else if i == p {
                assert(t[j] == r[j - 1]);
                assert(event_less(x, r[p], by_title));
                assert(r[p].start_unix <= r[j - 1].start_unix);
            } else {
                assert(t[i] == r[i - 1] && t[j] == r[j - 1]);
            }
        }
        assert forall|i: int| 0 <= i < t.len() implies s.contains(#[trigger] t[i]) by {
            if i < p {
                assert(t[i] == r[i]);
                assert(d.contains(r[i]));
                let k = choose|k: int| 0 <= k < d.len() && d[k] == r[i];
                assert(s[k] == d[k]);
            } else if i == p {
                assert(s[s.len() - 1] == x);
            } else {
                assert(t[i] == r[i - 1]);
                assert(d.contains(r[i - 1]));
                let k = choose|k: int| 0 <= k < d.len() && d[k] == r[i - 1];
                assert(s[k] == d[k]);
            }
        }
    }
}

proof fn lemma_dedup_events(s: Seq<EventView>)
    ensures
        dedup_events_spec(s).len() <= s.len(),
        forall|i: int|
            0 <= i < dedup_events_spec(s).len() ==> exists|j: int|
                0 <= j < s.len() && s[j] == #[trigger] dedup_events_spec(s)[i],
        starts_sorted(s) ==> starts_sorted(dedup_events_spec(s)),
        forall|i: int|
            0 < i < dedup_events_spec(s).len() ==> !same_occurrence(
                #[trigger] dedup_events_spec(s)[i],
                dedup_events_spec(s)[i - 1],
            ),
    decreases s.len(),
{
    if s.len() > 0 {
        let d = s.drop_last();
        lemma_dedup_events(d);
        let r = dedup_events_spec(d);
        let t = dedup_events_spec(s);
        assert forall|i: int| 0 <= i < t.len() implies exists|j: int|
            0 <= j < s.len() && s[j] == #[trigger] t[i] by {
            if i < r.len() {
                let j = choose|j: int| 0 <= j < d.len() && d[j] == r[i];
                assert(t[i] == r[i]);
                assert(s[j] == d[j]);
            } else {
                assert(s[s.len() - 1] == t[i]);
            }
        }
        if starts_sorted(s) {
            assert(starts_sorted(d));
            assert forall|i: int, j: int| 0 <= i < j < t.len() implies t[i].start_unix
                <= t[j].start_unix by {
                if j < r.len() {
                    assert(t[i] == r[i] && t[j] == r[j]);
                } else {
                    assert(t[i] == r[i]);
                    let k = choose|k: int| 0 <= k < d.len() && d[k] == r[i];
                    assert(s[k] == d[k]);
                    assert(t[j] == s[s.len() - 1]);
                }
            }
        }
        assert forall|i: int| 0 < i < t.len() implies !same_occurrence(
            #[trigger] t[i],
            t[i - 1],
        ) by {
            if i < r.len() {
                assert(t[i] == r[i] && t[i - 1] == r[i - 1]);
            } else {
                assert(t[i - 1] == r[r.len() - 1]);
            }
        }
    }
}

/// Normalised events are in order of start, no longer than the input, drawn from it, and no
/// event is the same occurrence as the one before it.
pub proof fn lemma_normalized_events_sorted_and_distinct(s: Seq<EventView>)
    ensures
        starts_sorted(normalize_events_spec(s)),
        normalize_events_spec(s).len() <= s.len(),
        forall|i: int|
            0 <= i < normalize_events_spec(s).len() ==> s.contains(
                #[trigger] normalize_events_spec(s)[i],
            ),
        forall|i: int|
            0 < i < normalize_events_spec(s).len() ==> !same_occurrence(
                #[trigger] normalize_events_spec(s)[i],
                normalize_events_spec(s)[i - 1],
            ),
{
    let sorted = sort_events_spec(s, true);
    lemma_sort_events_sorted(s, true);
    lemma_dedup_events(sorted);
    let r = normalize_events_spec(s);
    assert forall|i: int| 0 <= i < r.len() implies s.contains(#[trigger] r[i]) by {
        let j = choose|j: int| 0 <= j < sorted.len() && sorted[j] == r[i];
        assert(s.contains(sorted[j]));
    }
}

/// In an agenda the events still to come are among the day's events, and overlaps are
/// counted only between the day's timed events.
pub proof fn lemma_agenda_counts(
    events: Seq<EventView>,
    now: i64,
    day_key: Seq<char>,
    date_label: Seq<char>,
)
    ensures
        ({
            let a = agenda_spec(events, now, day_key, date_label);
            &&& 0 <= a.remaining_events <= a.total_events
            &&& 0 <= a.conflict_count <= a.total_events
            &&& a.total_events == 0 ==> a.next_event_title is None
            &&& a.minutes_until_next matches Some(m) ==> m >= 0
        }),
{
    let today = today_spec(events, day_key);
    lemma_filter_events_len(today, remaining_pred(now));
    let timed_unsorted = filter_events(today, timed_pred());
    lemma_filter_events_len(today, timed_pred());
    lemma_sort_events_sorted(timed_unsorted, false);
    let timed = sort_events_spec(timed_unsorted, false);
    lemma_conflict_scan_bound(timed);
    let remaining = remaining_spec(today, now);
    if today.len() == 0 {
        assert(remaining.len() == 0);
        lemma_first_upcoming_in(remaining, now);
    }
}

proof fn lemma_filter_events_len(s: Seq<EventView>, keep: spec_fn(EventView) -> bool)
    ensures
        filter_events(s, keep).len() <= s.len(),
    decreases s.len(),
{
    if s.len() > 0 {
        lemma_filter_events_len(s.drop_last(), keep);
    }
}

proof fn lemma_conflict_scan_bound(s: Seq<EventView>)
    ensures
        0 <= conflict_scan(s).0 <= s.len(),
    decreases s.len(),
{
    if s.len() > 0 {
        lemma_conflict_scan_bound(s.drop_last());
    }
}

proof fn lemma_first_upcoming_in(s: Seq<EventView>, now: i64)
    ensures
        s.len() == 0 ==> first_upcoming(s, now) is None,
{
}


// ---------------------------------------------------------------------------
// Laws of the agenda's next event, of de-duplication and of all-day dates
// ---------------------------------------------------------------------------

proof fn lemma_filter_members(s: Seq<EventView>, keep: spec_fn(EventView) -> bool, x: EventView)
    ensures
        filter_events(s, keep).contains(x) <==> (s.contains(x) && keep(x)),
    decreases s.len(),
{
    if s.len() > 0 {
        let d = s.drop_last();
        lemma_filter_members(d, keep, x);
        let r = filter_events(d, keep);
        if s.contains(x) && keep(x) {
            let i = choose|i: int| 0 <= i < s.len() && s[i] == x;
            if i < d.len() {
                assert(d[i] == x);
                assert(r.contains(x));
                let k = choose|k: int| 0 <= k < r.len() && r[k] == x;
                if keep(s.last()) {
                    assert(r.push(s.last())[k] == x);
                }
            } else {
                assert(s.last() == x);
                assert(r.push(s.last())[r.len() as int] == x);
            }
        }
        if filter_events(s, keep).contains(x) {
            let k = choose|k: int| 0 <= k < filter_events(s, keep).len() && filter_events(s, keep)[k] == x;
            if keep(s.last()) && k == r.len() {
                assert(s[s.len() - 1] == x);
            } else {
                assert(r[k] == x);
                assert(r.contains(x));
                let i = choose|i: int| 0 <= i < d.len() && d[i] == x;
                assert(s[i] == x);
            }
        }
    }
}

proof fn lemma_filter_sorted(s: Seq<EventView>, keep: spec_fn(EventView) -> bool)
    requires
        starts_sorted(s),
    ensures
        starts_sorted(filter_events(s, keep)),
    decreases s.len(),
{
    if s.len() > 0 {
        let d = s.drop_last();
        assert(starts_sorted(d)) by {
            assert forall|i: int, j: int| 0 <= i < j < d.len() implies d[i].start_unix
                <= d[j].start_unix by {
                assert(d[i] == s[i] && d[j] == s[j]);
            }
        }
        lemma_filter_sorted(d, keep);
        let r = filter_events(d, keep);
        if keep(s.last()) {
            let t = r.push(s.last());
            assert forall|i: int, j: int| 0 <= i < j < t.len() implies t[i].start_unix
                <= t[j].start_unix by {
                if j == r.len() {
                    lemma_filter_members(d, keep, r[i]);
                    assert(r.contains(r[i]));
                    let k = choose|k: int| 0 <= k < d.len() && d[k] == r[i];
                    assert(s[k] == r[i]);
                    assert(s[k].start_unix <= s[s.len() - 1].start_unix);
                } else {
                    assert(t[i] == r[i] && t[j] == r[j]);
                }
            }
        }
    }
}

proof fn lemma_sort_contains_all(s: Seq<EventView>, by_title: bool, x: EventView)
    requires
        s.contains(x),
    ensures
        sort_events_spec(s, by_title).contains(x),
    decreases s.len(),
{
    let d = s.drop_last();
    let r = sort_events_spec(d, by_title);
    lemma_insert_position_facts(r, s.last(), by_title);
    let p = event_insert_position(r, s.last(), by_title);
    let t = r.insert(p, s.last());
    let i = choose|i: int| 0 <= i < s.len() && s[i] == x;
    if i == s.len() - 1 {
        assert(t[p] == x);
    } else {
        assert(d[i] == x);
        lemma_sort_contains_all(d, by_title, x);
        let k = choose|k: int| 0 <= k < r.len() && r[k] == x;
        if k < p {
            assert(t[k] == x);
        } else {
            assert(t[k + 1] == x);
        }
    }
}

/// An event of the day's agenda that is still to come: of that day, not cancelled, timed,
/// starting at or after `now` and ending after it.
pub open spec fn upcoming_on(e: EventView, day_key: Seq<char>, now: i64) -> bool {
    &&& e.day_key == day_key
    &&& e.status != "cancelled"@
    &&& !e.all_day
    &&& e.start_unix >= now
    &&& e.end_unix > now
}

proof fn lemma_first_upcoming_min(s: Seq<EventView>, now: i64, i: int)
    requires
        starts_sorted(s),
        0 <= i < s.len(),
        !s[i].all_day && s[i].start_unix >= now,
    ensures
        first_upcoming(s, now) matches Some(e) && s.contains(e) && !e.all_day && e.start_unix >= now
            && forall|k: int|
            0 <= k < s.len() && !s[k].all_day && s[k].start_unix >= now ==> e.start_unix
                <= #[trigger] s[k].start_unix,
    decreases s.len(),
{
    if !s[0].all_day && s[0].start_unix >= now {
        assert(s.contains(s[0]));
    } else {
        let t = s.drop_first();
        assert(starts_sorted(t)) by {
            assert forall|a: int, b: int| 0 <= a < b < t.len() implies t[a].start_unix
                <= t[b].start_unix by {
                assert(t[a] == s[a + 1] && t[b] == s[b + 1]);
            }
        }
        assert(t[i - 1] == s[i]);
        lemma_first_upcoming_min(t, now, i - 1);
        let e = first_upcoming(t, now)->0;
        let j = choose|j: int| 0 <= j < t.len() && t[j] == e;
        assert(s[j + 1] == e);
        assert forall|k: int|
            0 <= k < s.len() && !s[k].all_day && s[k].start_unix >= now implies e.start_unix
                <= #[trigger] s[k].start_unix by {
            if k > 0 {
                assert(t[k - 1] == s[k]);
            }
        }
    }
}

/// When some event of the day is still to come, the agenda's next event is one of them with
/// the earliest start (never an all-day event or one already under way): its title and time
/// are that event's, and the minutes until it are its start less `now`, rounded up.
pub proof fn lemma_agenda_next_is_earliest_upcoming(
    events: Seq<EventView>,
    now: i64,
    day_key: Seq<char>,
    date_label: Seq<char>,
    i: int,
)
    requires
        0 <= i < events.len(),
        upcoming_on(events[i], day_key, now),
    ensures
        exists|j: int|
            0 <= j < events.len() && upcoming_on(#[trigger] events[j], day_key, now) && ({
                let a = agenda_spec(events, now, day_key, date_label);
                &&& a.next_event_title == Some(events[j].title)
                &&& a.next_event_time == Some(events[j].time_label)
                &&& a.minutes_until_next == Some((events[j].start_unix - now + 59) / 60)
                &&& forall|k: int|
                    0 <= k < events.len() && upcoming_on(#[trigger] events[k], day_key, now)
                        ==> events[j].start_unix <= events[k].start_unix
            }),
{
    let f = filter_events(events, today_pred(day_key));
    let today = today_spec(events, day_key);
    let remaining = remaining_spec(today, now);
    lemma_sort_events_sorted(f, false);
    lemma_filter_sorted(today, remaining_pred(now));
    let x = events[i];
    assert(events.contains(x));
    lemma_filter_members(events, today_pred(day_key), x);
    lemma_sort_contains_all(f, false, x);
    lemma_filter_members(today, remaining_pred(now), x);
    let ix = choose|ix: int| 0 <= ix < remaining.len() && remaining[ix] == x;
    lemma_first_upcoming_min(remaining, now, ix);
    let e = first_upcoming(remaining, now)->0;
    lemma_filter_members(today, remaining_pred(now), e);
    let it = choose|it: int| 0 <= it < today.len() && today[it] == e;
    assert(f.contains(today[it]));
    lemma_filter_members(events, today_pred(day_key), e);
    let j = choose|j: int| 0 <= j < events.len() && events[j] == e;
    assert forall|k: int|
        0 <= k < events.len() && upcoming_on(#[trigger] events[k], day_key, now) implies e.start_unix
            <= events[k].start_unix by {
        let y = events[k];
        assert(events.contains(y));
        lemma_filter_members(events, today_pred(day_key), y);
        lemma_sort_contains_all(f, false, y);
        lemma_filter_members(today, remaining_pred(now), y);
        let iy = choose|iy: int| 0 <= iy < remaining.len() && remaining[iy] == y;
        assert(!remaining[iy].all_day && remaining[iy].start_unix >= now);
    }
    assert(upcoming_on(events[j], day_key, now));
}

proof fn lemma_dedup_covers(s: Seq<EventView>, x: EventView)
    requires
        s.contains(x),
    ensures
        exists|k: int|
            0 <= k < dedup_events_spec(s).len() && same_occurrence(x, #[trigger] dedup_events_spec(s)[k]),
    decreases s.len(),
{
    let d = s.drop_last();
    let r = dedup_events_spec(d);
    let ds = dedup_events_spec(s);
    let i = choose|i: int| 0 <= i < s.len() && s[i] == x;
    let dropped = r.len() > 0 && same_occurrence(s.last(), r.last());
    if dropped {
        assert(ds == r);
    } else {
        assert(ds == r.push(s.last()));
    }
    if i < d.len() {
        assert(d[i] == x);
        lemma_dedup_covers(d, x);
        let k = choose|k: int| 0 <= k < r.len() && same_occurrence(x, r[k]);
        assert(ds[k] == r[k]);
        assert(same_occurrence(x, ds[k]));
    } else {
        assert(s.last() == x);
        if dropped {
            assert(ds[r.len() - 1] == r.last());
            assert(same_occurrence(x, ds[r.len() - 1]));
        } else {
            assert(ds[r.len() as int] == x);
            assert(same_occurrence(x, ds[r.len() as int]));
        }
    }
}

/// Normalising drops an event only for a kept one at the same start with the same calendar
/// identity: the same iCalendar id when both have one, else the same provider and id. So
/// events with different ids are all kept.
pub proof fn lemma_normalize_keeps_distinct_occurrences(s: Seq<EventView>, i: int)
    requires
        0 <= i < s.len(),
    ensures
        exists|k: int|
            0 <= k < normalize_events_spec(s).len() && ({
                let y = #[trigger] normalize_events_spec(s)[k];
                &&& y.start_unix == s[i].start_unix
                &&& match (s[i].ical_uid, y.ical_uid) {
                    (Some(a), Some(b)) => a == b,
                    _ => s[i].provider == y.provider && s[i].id == y.id,
                }
            }),
{
    let x = s[i];
    assert(s.contains(x));
    lemma_sort_contains_all(s, true, x);
    lemma_dedup_covers(sort_events_spec(s, true), x);
    let n = normalize_events_spec(s);
    let k = choose|k: int| 0 <= k < n.len() && same_occurrence(x, #[trigger] n[k]);
    assert(same_occurrence(x, n[k]));
}

/// An all-day Google event is shown on its own start date, whatever the machine's time zone:
/// its day key and label are that date's, the same for every local reading.
pub proof fn lemma_all_day_event_keeps_its_date(e: GoogleEvent, local: LocalView)
    requires
        google_range_spec(e.start, e.end) matches Some(r) && r.2,
    ensures
        ({
            let d = ymd_date(e.start.date->0@)->0;
            &&& e.start.date is Some
            &&& google_event_spec(e, local).day_key == date_text(d.0, d.1, d.2, "%Y-%m-%d"@)
            &&& google_event_spec(e, local).day_label == date_text(d.0, d.1, d.2, "%A, %B %-d"@)
            &&& google_event_spec(e, local).time_label == "All day"@
        }),
{
}

// ---------------------------------------------------------------------------
// Provider requests
// ---------------------------------------------------------------------------

/// The query of the Google Calendar request for the events between two times.
pub open spec fn google_pairs(time_min: Seq<char>, time_max: Seq<char>) -> Seq<
    (Seq<char>, Seq<char>),
> {
    seq![
        ("timeMin"@, time_min),
        ("timeMax"@, time_max),
        ("singleEvents"@, "true"@),
        ("showDeleted"@, "false"@),
        ("conferenceDataVersion"@, "1"@),
        ("maxResults"@, "2500"@),
        ("orderBy"@, "startTime"@),
    ]
}

/// The query of the Microsoft Graph calendar-view request between two times.
pub open spec fn outlook_pairs(time_min: Seq<char>, time_max: Seq<char>) -> Seq<
    (Seq<char>, Seq<char>),
> {
    seq![
        ("startDateTime"@, time_min),
        ("endDateTime"@, time_max),
        ("$top"@, "1000"@),
        (
            "$select"@,
            "id,iCalUId,subject,bodyPreview,location,start,end,isAllDay,isCancelled,onlineMeeting,onlineMeetingUrl,webLink"@,
        ),
    ]
}

/// A provider request: the checked endpoint with the query appended.
pub open spec fn events_url_spec(
    configured: Option<Seq<char>>,
    default: Seq<char>,
    service: Seq<char>,
    pairs: Seq<(Seq<char>, Seq<char>)>,
) -> Result<Seq<char>, Seq<char>> {
    match provider_endpoint_spec(configured, default, service) {
        Err(e) => Err(e),
        Ok(endpoint) => match url_with_query_result(endpoint, pairs) {
            Ok(u) => Ok(u),
            Err(_) => Err("Invalid "@ + service + " API URL"@),
        },
    }
}

fn events_url(
    configured: Option<&str>,
    default: &str,
    service: &str,
    pairs: &Vec<(String, String)>,
) -> (r: Result<String, String>)
    ensures
        result_view(r) == events_url_spec(
            match configured {
                Some(c) => Some(c@),
                None => None,
            },
            default@,
            service@,
            pairs_view(pairs@),
        ),
{
    let endpoint = match provider_endpoint(configured, default, service) {
        Ok(e) => e,
        Err(e) => return Err(e),
    };
    match url_with_query(endpoint.as_str(), pairs) {
        Ok(u) => Ok(u),
        Err(_) => {
            let mut msg: Vec<char> = chars_of("Invalid ");
            crate::text::push_str(&mut msg, service);
            crate::text::push_str(&mut msg, " API URL");
            Err(string_of(&msg))
        },
    }
}

/// The Google Calendar request for the primary calendar's events between two times;
/// `configured` is the endpoint set in `GOOGLE_CALENDAR_API_URL`, if any.
pub fn google_events_url(configured: Option<&str>, time_min: &str, time_max: &str) -> (r: Result<
    String,
    String,
>)
    ensures
        result_view(r) == events_url_spec(
            match configured {
                Some(c) => Some(c@),
                None => None,
            },
            "https://www.googleapis.com/calendar/v3/calendars/primary/events"@,
            "Google Calendar"@,
            google_pairs(time_min@, time_max@),
        ),
{
    let mut pairs: Vec<(String, String)> = Vec::new();
    pairs.push((from_str("timeMin"), from_str(time_min)));
    pairs.push((from_str("timeMax"), from_str(time_max)));
    pairs.push((from_str("singleEvents"), from_str("true")));
    pairs.push((from_str("showDeleted"), from_str("false")));
    pairs.push((from_str("conferenceDataVersion"), from_str("1")));
    pairs.push((from_str("maxResults"), from_str("2500")));
    pairs.push((from_str("orderBy"), from_str("startTime")));
    assert(pairs_view(pairs@) =~= google_pairs(time_min@, time_max@));
    events_url(
        configured,
        "https://www.googleapis.com/calendar/v3/calendars/primary/events",
        "Google Calendar",
        &pairs,
    )
}

/// The Microsoft Graph calendar-view request between two times; `configured` is the
/// endpoint set in `MICROSOFT_CALENDAR_API_URL`, if any.
pub fn outlook_events_url(configured: Option<&str>, time_min: &str, time_max: &str) -> (r: Result<
    String,
    String,
>)
    ensures
        result_view(r) == events_url_spec(
            match configured {
                Some(c) => Some(c@),
                None => None,
            },
            "https://graph.microsoft.com/v1.0/me/calendarview"@,
            "Microsoft Calendar"@,
            outlook_pairs(time_min@, time_max@),
        ),
{
    let mut pairs: Vec<(String, String)> = Vec::new();
    pairs.push((from_str("startDateTime"), from_str(time_min)));
    pairs.push((from_str("endDateTime"), from_str(time_max)));
    pairs.push((from_str("$top"), from_str("1000")));
    pairs.push(
        (
            from_str("$select"),
            from_str(
                "id,iCalUId,subject,bodyPreview,location,start,end,isAllDay,isCancelled,onlineMeeting,onlineMeetingUrl,webLink",
            ),
        ),
    );
    assert(pairs_view(pairs@) =~= outlook_pairs(time_min@, time_max@));
    events_url(
        configured,
        "https://graph.microsoft.com/v1.0/me/calendarview",
        "Microsoft Calendar",
        &pairs,
    )
}

} // verus!
