use happy_wakey::config::ReminderSettings;
use happy_wakey::reminders::{
    due_notices, is_valid_bundle_id, reminder_id, replace_events, restore_failed_deliveries,
    test_notice, times_in_range, update_settings, ReminderLedger, ReminderRuntime,
    LEDGER_RETENTION_SECONDS,
};
use happy_wakey::services::calendar::CalendarEvent;

fn event(start_unix: i64) -> CalendarEvent {
    CalendarEvent {
        id: "event-1".into(),
        ical_uid: Some("event-1@example.test".into()),
        title: "Daily planning".into(),
        start: chrono::DateTime::from_timestamp(start_unix, 0)
            .unwrap()
            .to_rfc3339(),
        end: chrono::DateTime::from_timestamp(start_unix + 1800, 0)
            .unwrap()
            .to_rfc3339(),
        start_unix,
        end_unix: start_unix + 1800,
        all_day: false,
        provider: "google".into(),
        status: "confirmed".into(),
        description: None,
        location: Some("Studio".into()),
        join_url: None,
        event_url: None,
        day_key: "2026-07-16".into(),
        day_label: "Thursday, July 16".into(),
        time_label: "9:00 AM".into(),
    }
}

fn settings() -> ReminderSettings {
    ReminderSettings {
        enabled: true,
        cloud_email_enabled: false,
        offsets_minutes: vec![30, 10],
    }
}

#[test]
fn reminder_fires_once_at_each_due_window() {
    let start = 10_000;
    let event = event(start);
    let mut ledger = ReminderLedger::default();

    let first = due_notices(
        std::slice::from_ref(&event),
        &settings(),
        &mut ledger,
        start - 29 * 60,
    );
    assert_eq!(first.len(), 1);
    assert!(first[0].body.contains("29 minutes"));

    let duplicate = due_notices(
        std::slice::from_ref(&event),
        &settings(),
        &mut ledger,
        start - 20 * 60,
    );
    assert!(duplicate.is_empty());

    let second = due_notices(&[event], &settings(), &mut ledger, start - 9 * 60);
    assert_eq!(second.len(), 1);
    assert!(second[0].body.contains("9 minutes"));
}

#[test]
fn late_refresh_sends_only_the_closest_due_reminder() {
    let start = 10_000;
    let event = event(start);
    let mut ledger = ReminderLedger::default();

    let notices = due_notices(&[event], &settings(), &mut ledger, start - 8 * 60);
    assert_eq!(notices.len(), 1);
    assert_eq!(ledger.len(), 2);
}

#[test]
fn failed_delivery_can_be_retried() {
    let start = 10_000;
    let event = event(start);
    let mut ledger = ReminderLedger::default();

    let notices = due_notices(&[event], &settings(), &mut ledger, start - 9 * 60);
    assert_eq!(notices.len(), 1);
    assert_eq!(ledger.len(), 2);

    restore_failed_deliveries(&mut ledger, &notices[0].ledger_ids);
    assert!(ledger.is_empty());
}

#[test]
fn disabled_all_day_and_started_events_do_not_notify() {
    let start = 10_000;
    let mut all_day = event(start);
    all_day.all_day = true;
    let mut ledger = ReminderLedger::default();
    assert!(due_notices(&[all_day], &settings(), &mut ledger, start - 5 * 60).is_empty());

    let disabled = ReminderSettings {
        enabled: false,
        cloud_email_enabled: false,
        offsets_minutes: vec![10],
    };
    assert!(due_notices(&[event(start)], &disabled, &mut ledger, start - 5 * 60).is_empty());
    assert!(due_notices(&[event(start)], &settings(), &mut ledger, start + 1).is_empty());
}

#[test]
fn ledger_prunes_old_entries() {
    let mut ledger = ReminderLedger::from_entries(vec![("old".into(), 1)]);
    let settings = ReminderSettings {
        enabled: false,
        cloud_email_enabled: false,
        offsets_minutes: vec![],
    };
    let now = LEDGER_RETENTION_SECONDS + 2;
    assert!(due_notices(&[], &settings, &mut ledger, now).is_empty());
    assert!(ledger.is_empty());
}

#[test]
fn notice_names_the_event_and_its_place() {
    let start = 10_000;
    let mut ledger = ReminderLedger::new();
    let notices = due_notices(&[event(start)], &settings(), &mut ledger, start - 9 * 60);
    assert_eq!(notices.len(), 1);
    assert_eq!(notices[0].title, "Daily planning");
    assert_eq!(notices[0].body, "Starts in 9 minutes at 9:00 AM\nStudio");
    assert_eq!(notices[0].ledger_ids.len(), 2);
    assert_eq!(ledger.get(&reminder_id(&event(start), 10)), Some(start - 9 * 60));
    assert_eq!(ledger.get(&reminder_id(&event(start), 30)), Some(start - 9 * 60));
}

#[test]
fn reminder_ids_follow_the_occurrence_and_offset() {
    let id = reminder_id(&event(10_000), 30);
    assert_eq!(id, "google:event-1:10000:30");
    let mut other = event(10_000);
    other.provider = "outlook".into();
    assert_eq!(reminder_id(&other, 10), "outlook:event-1:10000:10");
}

#[test]
fn cancelled_events_do_not_notify() {
    let start = 10_000;
    let mut cancelled = event(start);
    cancelled.status = "cancelled".into();
    let mut ledger = ReminderLedger::new();
    assert!(due_notices(&[cancelled], &settings(), &mut ledger, start - 5 * 60).is_empty());
    assert!(ledger.is_empty());
}

#[test]
fn ledger_keeps_recent_deliveries_and_last_entry_wins() {
    let mut ledger =
        ReminderLedger::from_entries(vec![("a".into(), 5), ("b".into(), 7), ("a".into(), 9)]);
    assert_eq!(ledger.len(), 2);
    assert_eq!(ledger.get(&"a".to_string()), Some(9));
    ledger.retain_since(8);
    assert_eq!(ledger.len(), 1);
    assert!(ledger.contains_key(&"a".to_string()));
    assert!(!ledger.contains_key(&"b".to_string()));
    ledger.insert("c".into(), 11);
    ledger.remove(&"a".to_string());
    assert_eq!(ledger.entries(), vec![("c".to_string(), 11)]);
}

#[test]
fn runtime_takes_due_notices_once() {
    let start = 10_000;
    let mut runtime = ReminderRuntime {
        events: Vec::new(),
        settings: ReminderSettings::default(),
        ledger: ReminderLedger::new(),
    };
    replace_events(&mut runtime, vec![event(start)], ReminderSettings::default());
    assert!(runtime.take_due(start - 9 * 60).unwrap().0.is_empty());
    update_settings(&mut runtime, settings());
    let (notices, snapshot) = runtime.take_due(start - 9 * 60).unwrap();
    assert_eq!(notices.len(), 1);
    assert_eq!(snapshot.len(), 2);
    let (again, _) = runtime.take_due(start - 8 * 60).unwrap();
    assert!(again.is_empty());
}

#[test]
fn runtime_refuses_times_beyond_range() {
    let mut far = event(10_000);
    far.start_unix = i64::MAX - 10;
    let mut runtime = ReminderRuntime {
        events: vec![far],
        settings: settings(),
        ledger: ReminderLedger::new(),
    };
    assert!(!times_in_range(&runtime.events, &runtime.settings, i64::MIN));
    assert!(runtime.take_due(i64::MIN).is_none());
    assert!(runtime.ledger.is_empty());
}

#[test]
fn test_notice_has_fixed_text() {
    let n = test_notice();
    assert_eq!(n.title, "Happy Wakey reminders are ready");
    assert_eq!(n.body, "Calendar alerts will appear here before your next event.");
    assert!(n.ledger_ids.is_empty());
}

#[test]
fn bundle_ids_are_checked() {
    assert!(is_valid_bundle_id("com.apple.Terminal"));
    assert!(!is_valid_bundle_id(""));
    assert!(!is_valid_bundle_id("com.apple;rm"));
    assert!(!is_valid_bundle_id(&"a".repeat(256)));
}
