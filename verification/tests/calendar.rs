use chrono::{FixedOffset, TimeZone, Utc};
use happy_wakey::services::calendar::{
    agenda_at, agenda_fits, build_agenda, build_agenda_at, google_calendar_events, google_events_url,
    map_google_event, map_outlook_event, normalize_events, outlook_calendar_events,
    outlook_events_url, parse_google_range, parse_outlook_datetime, provider_endpoint,
    safe_http_url, week_bounds, week_bounds_text, CalendarEvent, GoogleConferenceData, GoogleDateTime,
    GoogleEntryPoint, GoogleEvent, OutlookEvent,
};

fn sample_event(id: &str, title: &str, start: i64, end: i64, day_key: &str) -> CalendarEvent {
    CalendarEvent {
        id: id.into(),
        ical_uid: Some(format!("{id}@example.test")),
        title: title.into(),
        start: chrono::DateTime::from_timestamp(start, 0).unwrap().to_rfc3339(),
        end: chrono::DateTime::from_timestamp(end, 0).unwrap().to_rfc3339(),
        start_unix: start,
        end_unix: end,
        all_day: false,
        provider: "google".into(),
        status: "confirmed".into(),
        description: None,
        location: None,
        join_url: None,
        event_url: None,
        day_key: day_key.into(),
        day_label: "Thursday, July 16".into(),
        time_label: "9:00 AM".into(),
    }
}

#[test]
fn week_bounds_start_at_monday_midnight() {
    let offset = FixedOffset::west_opt(5 * 3600).unwrap();
    let now = offset.with_ymd_and_hms(2026, 7, 16, 14, 42, 10).unwrap();
    let (start, end) = week_bounds(now.timestamp(), now.offset().local_minus_utc());
    assert_eq!(
        start,
        offset.with_ymd_and_hms(2026, 7, 13, 0, 0, 0).unwrap().timestamp()
    );
    assert_eq!(end, offset.with_ymd_and_hms(2026, 7, 20, 0, 0, 0).unwrap().timestamp());
}

#[test]
fn google_all_day_end_date_remains_exclusive() {
    let start = GoogleDateTime {
        date_time: None,
        date: Some("2026-07-16".into()),
    };
    let end = GoogleDateTime {
        date_time: None,
        date: Some("2026-07-17".into()),
    };
    let (start, end, all_day, date) = parse_google_range(&start, &end).unwrap();
    assert!(all_day);
    assert_eq!(end.timestamp() - start.timestamp(), 86_400);
    assert_eq!(end.subsec_nanos(), start.subsec_nanos());
    let date = date.unwrap();
    assert_eq!((date.year(), date.month(), date.day()), (2026, 7, 16));
}

#[test]
fn outlook_utc_datetime_without_suffix_is_supported() {
    let parsed = parse_outlook_datetime("2026-07-16T15:30:00.0000000").unwrap();
    assert_eq!(
        (parsed.timestamp(), parsed.subsec_nanos()),
        (Utc.with_ymd_and_hms(2026, 7, 16, 15, 30, 0).unwrap().timestamp(), 0)
    );
}

#[test]
fn agenda_reports_next_event_duration_and_conflicts() {
    let now = Utc
        .with_ymd_and_hms(2026, 7, 16, 13, 0, 0)
        .unwrap()
        .timestamp();
    let first = sample_event("a", "Planning", now + 3600, now + 7200, "2026-07-16");
    let second = sample_event("b", "Review", now + 5400, now + 9000, "2026-07-16");
    let agenda = build_agenda_at(&[first, second], now, "2026-07-16", "Thursday, July 16");

    assert_eq!(agenda.total_events, 2);
    assert_eq!(agenda.remaining_events, 2);
    assert_eq!(agenda.meeting_minutes, 120);
    assert_eq!(agenda.conflict_count, 1);
    assert_eq!(agenda.next_event_title.as_deref(), Some("Planning"));
    assert_eq!(agenda.minutes_until_next, Some(60));
}

#[test]
fn normalize_events_sorts_and_deduplicates_matching_ical_instances() {
    let mut duplicate = sample_event("copy", "Planning copy", 200, 300, "2026-07-16");
    duplicate.ical_uid = Some("shared@example.test".into());
    let mut original = sample_event("original", "Planning", 200, 300, "2026-07-16");
    original.ical_uid = Some("shared@example.test".into());
    let earlier = sample_event("early", "Earlier", 100, 150, "2026-07-16");

    let normalized = normalize_events(vec![duplicate, original, earlier]);
    assert_eq!(normalized.len(), 2);
    assert_eq!(normalized[0].id, "early");
}

#[test]
fn unsafe_meeting_links_are_rejected() {
    assert!(safe_http_url("javascript:alert(1)").is_none());
    assert!(safe_http_url("file:///tmp/meeting").is_none());
    assert_eq!(
        safe_http_url("https://meet.example.com/room").as_deref(),
        Some("https://meet.example.com/room")
    );
}

#[test]
fn provider_endpoints_allow_https_and_loopback_only() {
    assert!(provider_endpoint(None, "https://example.com/events", "Test").is_ok());
    assert!(provider_endpoint(None, "http://127.0.0.1:9000/events", "Test").is_ok());
    assert!(provider_endpoint(None, "http://example.com/events", "Test").is_err());
}

#[test]
fn provider_endpoint_errors_name_the_service() {
    assert_eq!(
        provider_endpoint(None, "http://example.com/events", "Test"),
        Err("Test API URL must use HTTPS".to_string())
    );
    assert_eq!(
        provider_endpoint(Some("not a url"), "https://example.com/events", "Test"),
        Err("Invalid Test API URL".to_string())
    );
    assert_eq!(
        provider_endpoint(Some("  http://localhost:8080/x  "), "https://example.com", "Test"),
        Ok("http://localhost:8080/x".to_string())
    );
    assert_eq!(
        provider_endpoint(Some("http://[::1]:9000/e"), "https://example.com", "Test"),
        Ok("http://[::1]:9000/e".to_string())
    );
}

#[test]
fn week_bounds_on_monday_and_sunday() {
    let monday = Utc.with_ymd_and_hms(2026, 7, 13, 0, 0, 0).unwrap().timestamp();
    assert_eq!(week_bounds(monday, 0), (monday, monday + 7 * 86_400));
    let sunday_night = Utc.with_ymd_and_hms(2026, 7, 19, 23, 59, 59).unwrap().timestamp();
    assert_eq!(week_bounds(sunday_night, 0), (monday, monday + 7 * 86_400));
    let east = FixedOffset::east_opt(9 * 3600).unwrap();
    let tokyo = east.with_ymd_and_hms(2026, 7, 13, 1, 0, 0).unwrap();
    assert_eq!(
        week_bounds(tokyo.timestamp(), 9 * 3600).0,
        east.with_ymd_and_hms(2026, 7, 13, 0, 0, 0).unwrap().timestamp()
    );
    let before_epoch = Utc.with_ymd_and_hms(1969, 12, 31, 12, 0, 0).unwrap().timestamp();
    assert_eq!(
        week_bounds(before_epoch, 0).0,
        Utc.with_ymd_and_hms(1969, 12, 29, 0, 0, 0).unwrap().timestamp()
    );
}

#[test]
fn google_timed_range_must_end_after_start() {
    let at = |t: &str| GoogleDateTime {
        date_time: Some(t.into()),
        date: None,
    };
    let (start, end, all_day, date) =
        parse_google_range(&at("2026-07-16T09:00:00+02:00"), &at("2026-07-16T10:00:00+02:00"))
            .unwrap();
    assert!(!all_day);
    assert!(date.is_none());
    assert_eq!(start.timestamp(), Utc.with_ymd_and_hms(2026, 7, 16, 7, 0, 0).unwrap().timestamp());
    assert_eq!(end.timestamp() - start.timestamp(), 3600);
    assert!(
        parse_google_range(&at("2026-07-16T10:00:00Z"), &at("2026-07-16T10:00:00Z")).is_none()
    );
    assert!(parse_google_range(&at("yesterday"), &at("2026-07-16T10:00:00Z")).is_none());
}

fn google_event(status: Option<&str>) -> GoogleEvent {
    GoogleEvent {
        id: "g1".into(),
        ical_uid: Some("g1@google.com".into()),
        summary: Some("  Stand\u{0}up  ".into()),
        description: Some("Notes".into()),
        location: Some("   ".into()),
        status: status.map(|s| s.to_string()),
        hangout_link: Some("https://meet.google.com/abc".into()),
        html_link: Some("javascript:alert(1)".into()),
        conference_data: Some(GoogleConferenceData {
            entry_points: vec![
                GoogleEntryPoint {
                    entry_point_type: Some("phone".into()),
                    uri: Some("tel:+1555".into()),
                },
                GoogleEntryPoint {
                    entry_point_type: Some("video".into()),
                    uri: Some("https://zoom.example.com/j/1".into()),
                },
            ],
        }),
        start: GoogleDateTime {
            date_time: None,
            date: Some("2026-07-16".into()),
        },
        end: GoogleDateTime {
            date_time: None,
            date: Some("2026-07-17".into()),
        },
    }
}

#[test]
fn google_events_map_to_clean_calendar_events() {
    assert!(map_google_event(&google_event(Some("cancelled"))).is_none());
    let e = map_google_event(&google_event(Some("tentative"))).unwrap();
    assert_eq!(e.title, "Standup");
    assert_eq!(e.provider, "google");
    assert_eq!(e.status, "confirmed");
    assert_eq!(e.location, None);
    assert_eq!(e.description.as_deref(), Some("Notes"));
    assert_eq!(e.join_url.as_deref(), Some("https://zoom.example.com/j/1"));
    assert_eq!(e.event_url, None);
    assert!(e.all_day);
    assert_eq!(e.day_key, "2026-07-16");
    assert_eq!(e.day_label, "Thursday, July 16");
    assert_eq!(e.time_label, "All day");
    assert_eq!(e.end_unix - e.start_unix, 86_400);
    assert_eq!(
        e.start_unix,
        Utc.with_ymd_and_hms(2026, 7, 16, 0, 0, 0).unwrap().timestamp()
    );
    assert_eq!(e.start, "2026-07-16T00:00:00+00:00");
    assert_eq!(e.end, "2026-07-17T00:00:00+00:00");
}

#[test]
fn google_calendar_events_skip_cancelled_and_sort() {
    let mut later = google_event(None);
    later.id = "g2".into();
    later.ical_uid = None;
    later.start.date = Some("2026-07-18".into());
    later.end.date = Some("2026-07-19".into());
    let events = google_calendar_events(&vec![
        later,
        google_event(Some("cancelled")),
        google_event(None),
    ]);
    assert_eq!(events.len(), 2);
    assert_eq!(events[0].id, "g1");
    assert_eq!(events[1].id, "g2");
}

fn outlook_event() -> OutlookEvent {
    OutlookEvent {
        id: "o1".into(),
        ical_uid: None,
        subject: None,
        body_preview: Some("Agenda".into()),
        location_display_name: Some("Room 4".into()),
        start_date_time: Some("2026-07-16T15:30:00.0000000".into()),
        end_date_time: Some("2026-07-16T16:00:00.0000000".into()),
        is_all_day: false,
        is_cancelled: false,
        online_meeting_join_url: None,
        online_meeting_url: Some("https://teams.example.com/m".into()),
        web_link: Some("https://outlook.example.com/e".into()),
    }
}

#[test]
fn outlook_events_map_to_calendar_events() {
    let e = map_outlook_event(&outlook_event()).unwrap();
    assert_eq!(e.title, "Untitled");
    assert_eq!(e.provider, "outlook");
    assert_eq!(e.location.as_deref(), Some("Room 4"));
    assert_eq!(e.join_url.as_deref(), Some("https://teams.example.com/m"));
    assert_eq!(e.event_url.as_deref(), Some("https://outlook.example.com/e"));
    assert_eq!(e.end_unix - e.start_unix, 1800);
    let mut cancelled = outlook_event();
    cancelled.is_cancelled = true;
    assert!(map_outlook_event(&cancelled).is_none());
    let mut backwards = outlook_event();
    backwards.end_date_time = Some("2026-07-16T15:00:00.0000000".into());
    assert!(map_outlook_event(&backwards).is_none());
    assert_eq!(outlook_calendar_events(&vec![cancelled, outlook_event()]).len(), 1);
}

#[test]
fn agenda_of_a_clear_or_finished_day() {
    let now = 1_000_000;
    let clear = build_agenda_at(&[], now, "2026-07-16", "Thursday, July 16");
    assert_eq!(clear.headline, "Your day is clear");
    assert_eq!(clear.total_events, 0);
    assert_eq!(clear.next_event_title, None);

    let done = sample_event("a", "Standup", now - 3600, now - 1800, "2026-07-16");
    let other_day = sample_event("b", "Tomorrow", now + 86_400, now + 90_000, "2026-07-17");
    let agenda = build_agenda_at(&[done, other_day], now, "2026-07-16", "Thursday, July 16");
    assert_eq!(agenda.total_events, 1);
    assert_eq!(agenda.remaining_events, 0);
    assert_eq!(agenda.meeting_minutes, 30);
    assert_eq!(agenda.headline, "1 event complete for today");
    assert_eq!(agenda.minutes_until_next, None);
    assert_eq!(agenda.date_label, "Thursday, July 16");
}

#[test]
fn agenda_headline_names_the_next_event() {
    let now = 1_000_000;
    let a = sample_event("a", "Planning", now + 60, now + 120, "2026-07-16");
    let b = sample_event("b", "Review", now + 600, now + 1200, "2026-07-16");
    let agenda = build_agenda_at(&[b, a], now, "2026-07-16", "Thursday, July 16");
    assert_eq!(agenda.headline, "2 events. Next: Planning at 9:00 AM");
    assert_eq!(agenda.next_event_time.as_deref(), Some("9:00 AM"));
    assert_eq!(agenda.minutes_until_next, Some(1));
    assert_eq!(agenda.conflict_count, 0);
}

#[test]
fn agenda_fits_ordinary_days() {
    let now = 1_000_000;
    let a = sample_event("a", "Planning", now + 60, now + 120, "2026-07-16");
    assert!(agenda_fits(&[a], now, "2026-07-16"));
    let mut huge = sample_event("h", "Forever", 0, 1, "2026-07-16");
    huge.start_unix = i64::MIN;
    huge.end_unix = i64::MAX;
    assert!(!agenda_fits(&[huge], now, "2026-07-16"));
    assert!(build_agenda(&[]).is_some());
}

#[test]
fn events_urls_carry_the_time_window() {
    let g = google_events_url(None, "2026-07-13T00:00:00+00:00", "2026-07-20T00:00:00+00:00")
        .unwrap();
    assert!(g.starts_with("https://www.googleapis.com/calendar/v3/calendars/primary/events?"));
    assert!(g.contains("timeMin=2026-07-13T00%3A00%3A00%2B00%3A00"));
    assert!(g.contains("singleEvents=true"));
    assert!(g.contains("orderBy=startTime"));
    let o = outlook_events_url(None, "a", "b").unwrap();
    assert!(o.starts_with("https://graph.microsoft.com/v1.0/me/calendarview?startDateTime=a&endDateTime=b"));
    assert_eq!(
        google_events_url(Some("http://example.com"), "a", "b"),
        Err("Google Calendar API URL must use HTTPS".to_string())
    );
}

#[test]
fn week_bounds_are_written_at_the_offset() {
    let offset = FixedOffset::west_opt(5 * 3600).unwrap();
    let now = offset.with_ymd_and_hms(2026, 7, 16, 14, 42, 10).unwrap();
    assert_eq!(
        week_bounds_text(now.timestamp(), -5 * 3600),
        Some((
            "2026-07-13T00:00:00-05:00".to_string(),
            "2026-07-20T00:00:00-05:00".to_string()
        ))
    );
}

#[test]
fn agenda_at_reads_the_local_day_of_the_instant() {
    let m = parse_outlook_datetime("2026-07-16T13:00:00").unwrap();
    let now = m.timestamp();
    let local_day = chrono::DateTime::from_timestamp(now, 0)
        .unwrap()
        .with_timezone(&chrono::Local)
        .format("%Y-%m-%d")
        .to_string();
    let first = sample_event("a", "Planning", now + 60, now + 3660, &local_day);
    let other = sample_event("b", "Elsewhere", now + 60, now + 3660, "1999-01-01");
    let agenda = agenda_at(&[first, other], &m).unwrap();
    assert_eq!(agenda.total_events, 1);
    assert_eq!(agenda.next_event_title.as_deref(), Some("Planning"));
    assert_eq!(agenda.minutes_until_next, Some(1));
    let mut huge = sample_event("h", "Forever", 0, 1, &local_day);
    huge.start_unix = i64::MIN;
    huge.end_unix = i64::MAX;
    assert!(agenda_at(&[huge], &m).is_none());
}
