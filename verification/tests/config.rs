use happy_wakey::config::{
    config_dir_override, is_coordinate_within, loaded_config, merge_editable_config,
    merge_onboarding, sanitize, sanitize_onboarding_state, sanitize_symbol, set_onboarding_state,
    set_onboarding_state_at, sign_in, sign_out, sync_safe_config, Bookmark, CalendarProvider,
    Config, OnboardingState, ReminderSettings, SupabaseSession, WeatherLocation,
    LATITUDE_LIMIT_BITS, LONGITUDE_LIMIT_BITS,
};

fn onboarding(completed: bool, step: &str, index: u8, at: Option<&str>) -> OnboardingState {
    OnboardingState {
        completed,
        current_step: step.into(),
        step_index: index,
        updated_at: at.map(|t| t.to_string()),
    }
}

fn location(name: &str, lat: f64, lon: f64) -> WeatherLocation {
    WeatherLocation {
        name: name.into(),
        lat_bits: lat.to_bits(),
        lon_bits: lon.to_bits(),
    }
}

fn session() -> SupabaseSession {
    SupabaseSession {
        access_token: "access".into(),
        refresh_token: "refresh".into(),
        expires_at: 42,
        user_id: "  user-1\u{7}  ".into(),
        email: Some(" me@example.com ".into()),
    }
}

#[test]
fn defaults_hold_the_standard_lists() {
    let c = Config::default();
    assert_eq!(c.version, "0.1.0");
    assert_eq!(c.stock_symbols.len(), 20);
    assert_eq!(c.stock_symbols[0], "AAPL");
    assert_eq!(c.news_keywords, vec!["technology", "AI", "markets"]);
    assert!(c.supabase_sync_enabled);
    assert_eq!(c.onboarding.current_step, "welcome");
    assert!(c.supabase_session.is_none());
    let r = ReminderSettings::default();
    assert!(!r.enabled);
    assert!(r.offsets_minutes.is_empty());
}

#[test]
fn symbols_are_trimmed_upper_cased_and_checked() {
    assert_eq!(sanitize_symbol("  brk.b "), Some("BRK.B".to_string()));
    assert_eq!(sanitize_symbol("btc-usd"), Some("BTC-USD".to_string()));
    assert_eq!(sanitize_symbol("ſpy"), Some("SPY".to_string()));
    assert_eq!(sanitize_symbol(""), None);
    assert_eq!(sanitize_symbol("AAPL;DROP"), None);
    assert_eq!(sanitize_symbol(&"A".repeat(25)), None);
    assert_eq!(sanitize_symbol(&"A".repeat(24)), Some("A".repeat(24)));
}

#[test]
fn onboarding_state_is_sanitised() {
    let s = sanitize_onboarding_state(onboarding(false, " backup ", 9, Some("not a time")));
    assert_eq!(s.current_step, "backup");
    assert_eq!(s.step_index, 4);
    assert_eq!(s.updated_at, None);
    let s = sanitize_onboarding_state(onboarding(true, "backup", 2, Some("2026-07-16T10:00:00Z")));
    assert_eq!(s.current_step, "complete");
    assert_eq!(s.step_index, 2);
    assert_eq!(s.updated_at.as_deref(), Some("2026-07-16T10:00:00Z"));
    let s = sanitize_onboarding_state(onboarding(false, "somewhere", 1, None));
    assert_eq!(s.current_step, "welcome");
}

#[test]
fn remote_completion_wins_over_local_progress() {
    let local = onboarding(false, "ready", 3, Some("2026-07-17T10:00:00Z"));
    let remote = onboarding(true, "ready", 4, Some("2026-07-16T10:00:00Z"));
    let merged = merge_onboarding(&local, &remote);
    assert!(merged.completed);
    assert_eq!(merged.current_step, "complete");
}

#[test]
fn local_completion_wins_over_newer_incomplete_remote() {
    let local = onboarding(true, "complete", 4, Some("2026-01-01T00:00:00Z"));
    let remote = onboarding(false, "backup", 2, Some("2026-02-01T00:00:00Z"));
    let result = merge_onboarding(&local, &remote);
    assert!(result.completed);
    assert_eq!(result.current_step, "complete");
    assert_eq!(result.step_index, 4);
    assert_eq!(result.updated_at.as_deref(), Some("2026-01-01T00:00:00Z"));
}

#[test]
fn later_state_wins_the_merge() {
    let older = onboarding(false, "account", 1, Some("2026-07-16T10:00:00Z"));
    let newer = onboarding(false, "backup", 2, Some("2026-07-16T12:00:00+01:00"));
    assert_eq!(merge_onboarding(&older, &newer).current_step, "backup");
    assert_eq!(merge_onboarding(&newer, &older).current_step, "backup");
    let undated = onboarding(false, "essentials", 3, None);
    assert_eq!(merge_onboarding(&undated, &older).current_step, "account");
    assert_eq!(merge_onboarding(&older, &undated).current_step, "account");
    let local_done = onboarding(true, "complete", 4, Some("2026-07-17T00:00:00Z"));
    assert!(merge_onboarding(&local_done, &older).completed);
    let undated_done = onboarding(true, "complete", 4, None);
    assert!(merge_onboarding(&undated_done, &older).completed);
}

#[test]
fn coordinates_are_checked_by_their_bits() {
    assert!(is_coordinate_within(90.0f64.to_bits(), LATITUDE_LIMIT_BITS));
    assert!(is_coordinate_within((-90.0f64).to_bits(), LATITUDE_LIMIT_BITS));
    assert!(is_coordinate_within((-0.0f64).to_bits(), LATITUDE_LIMIT_BITS));
    assert!(!is_coordinate_within(90.000001f64.to_bits(), LATITUDE_LIMIT_BITS));
    assert!(!is_coordinate_within(f64::NAN.to_bits(), LATITUDE_LIMIT_BITS));
    assert!(!is_coordinate_within(f64::INFINITY.to_bits(), LONGITUDE_LIMIT_BITS));
    assert!(is_coordinate_within((-180.0f64).to_bits(), LONGITUDE_LIMIT_BITS));
}

fn messy_config() -> Config {
    let mut c = Config::default();
    c.version = "9.9.9".into();
    c.user_id = "  user-1  ".into();
    c.supabase_session = Some(session());
    c.calendar_providers = vec![CalendarProvider {
        provider: " google ".into(),
        email: " me@example.com\u{1} ".into(),
        access_token: "secret-access".into(),
        refresh_token: "secret-refresh".into(),
        expires_at: 7,
    }];
    c.weather_locations = vec![
        location("  Home ", 52.5, 13.4),
        location("", 1.0, 1.0),
        location("Nowhere", f64::NAN, 0.0),
        location("North", 91.0, 0.0),
        location("A", 1.0, 1.0),
        location("B", 1.0, 1.0),
        location("C", 1.0, 1.0),
        location("D", 1.0, 1.0),
    ];
    c.stock_symbols = vec!["aapl".into(), "bad symbol".into(), " msft ".into()];
    c.news_keywords = vec!["  rust ".into(), "   ".into(), "x".repeat(70)];
    c.browser_bookmarks = vec![
        Bookmark {
            id: "b1".into(),
            title: "  ".into(),
            url: "example.com/page".into(),
        },
        Bookmark {
            id: "b2".into(),
            title: "Bad".into(),
            url: "javascript:alert(1)".into(),
        },
    ];
    c.git_repo_path = Some("   ".into());
    c.onboarding = onboarding(false, "ready", 200, None);
    c
}

#[test]
fn sanitize_cleans_and_caps_every_list() {
    let s = sanitize(messy_config());
    assert_eq!(s.version, "0.1.0");
    assert_eq!(s.user_id, "user-1");
    assert_eq!(s.weather_locations.len(), 5);
    assert_eq!(s.weather_locations[0].name, "Home");
    assert_eq!(s.weather_locations[0].lat_bits, 52.5f64.to_bits());
    assert_eq!(s.stock_symbols, vec!["AAPL", "MSFT"]);
    assert_eq!(s.news_keywords.len(), 2);
    assert_eq!(s.news_keywords[0], "rust");
    assert_eq!(s.news_keywords[1].chars().count(), 64);
    assert_eq!(s.browser_bookmarks.len(), 1);
    assert_eq!(s.browser_bookmarks[0].url, "https://example.com/page");
    assert_eq!(s.browser_bookmarks[0].title, "https://example.com/page");
    assert_eq!(s.git_repo_path, None);
    assert_eq!(s.calendar_providers[0].provider, "google");
    assert_eq!(s.calendar_providers[0].email, "me@example.com");
    assert_eq!(s.calendar_providers[0].access_token, "secret-access");
    let kept = s.supabase_session.unwrap();
    assert_eq!(kept.user_id, "user-1");
    assert_eq!(kept.email.as_deref(), Some("me@example.com"));
    assert_eq!(kept.access_token, "access");
    assert_eq!(s.onboarding.step_index, 4);
}

#[test]
fn sanitize_keeps_at_most_twenty_symbols_and_fifty_bookmarks() {
    let mut c = Config::default();
    c.stock_symbols = (0..30).map(|i| format!("S{i}")).collect();
    c.browser_bookmarks = (0..60)
        .map(|i| Bookmark {
            id: format!("{i}"),
            title: format!("Page {i}"),
            url: format!("https://example.com/{i}"),
        })
        .collect();
    c.news_keywords = (0..25).map(|i| format!("k{i}")).collect();
    let s = sanitize(c);
    assert_eq!(s.stock_symbols.len(), 20);
    assert_eq!(s.stock_symbols[19], "S19");
    assert_eq!(s.browser_bookmarks.len(), 50);
    assert_eq!(s.news_keywords.len(), 20);
}

#[test]
fn sync_safe_config_holds_no_secrets() {
    let safe = sync_safe_config(&messy_config());
    assert!(safe.supabase_session.is_none());
    assert_eq!(safe.calendar_providers[0].access_token, "");
    assert_eq!(safe.calendar_providers[0].refresh_token, "");
    assert_eq!(safe.calendar_providers[0].email, "me@example.com");
    assert_eq!(safe.stock_symbols, vec!["AAPL", "MSFT"]);
}

#[test]
fn editing_keeps_the_account() {
    let mut current = Config::default();
    current.user_id = "user-1".into();
    current.supabase_session = Some(session());
    let mut incoming = Config::default();
    incoming.user_id = "intruder".into();
    incoming.stock_symbols = vec!["tsla".into()];
    incoming.supabase_sync_enabled = false;
    let merged = merge_editable_config(current, incoming);
    assert_eq!(merged.user_id, "user-1");
    assert!(merged.supabase_session.is_some());
    assert_eq!(merged.stock_symbols, vec!["TSLA"]);
    assert_eq!(merged.onboarding.current_step, "welcome");
    assert!(!merged.supabase_sync_enabled);
}

#[test]
fn onboarding_state_is_set_and_clamped() {
    let c = set_onboarding_state_at(Config::default(), "essentials", -3, false, "2026-07-16T10:00:00Z".into());
    assert_eq!(c.onboarding.current_step, "essentials");
    assert_eq!(c.onboarding.step_index, 0);
    assert_eq!(c.onboarding.updated_at.as_deref(), Some("2026-07-16T10:00:00Z"));
    let c = set_onboarding_state(Config::default(), "ready", 99, true).unwrap();
    assert_eq!(c.onboarding.current_step, "complete");
    assert_eq!(c.onboarding.step_index, 4);
    assert!(c.onboarding.updated_at.is_some());
}

#[test]
fn config_dir_override_is_trimmed() {
    assert_eq!(config_dir_override(None), None);
    assert_eq!(config_dir_override(Some("   ")), None);
    assert_eq!(config_dir_override(Some(" /tmp/hw ")), Some("/tmp/hw".to_string()));
}

#[test]
fn loaded_config_is_sanitised_or_default() {
    assert_eq!(loaded_config(None).stock_symbols.len(), 20);
    let mut c = Config::default();
    c.stock_symbols = vec!["nvda".into()];
    assert_eq!(loaded_config(Some(c)).stock_symbols, vec!["NVDA"]);
}

#[test]
fn signing_in_and_out_sets_the_session() {
    let s = happy_wakey::supabase::SupabaseSession {
        access_token: "a".into(),
        refresh_token: "r".into(),
        expires_at: 100,
        user_id: "u-9".into(),
        email: None,
    };
    let c = sign_in(Config::default(), s);
    assert_eq!(c.user_id, "u-9");
    assert_eq!(c.supabase_session.as_ref().unwrap().access_token, "a");
    assert_eq!(c.supabase_session.as_ref().unwrap().expires_at, 100);
    let out = sign_out(c);
    assert!(out.supabase_session.is_none());
    assert_eq!(out.user_id, "u-9");
}
