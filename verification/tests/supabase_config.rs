use happy_wakey::config::{Config, OnboardingState};
use happy_wakey::supabase_config::{
    config_fetch_url, fetched_config, first_onboarding_row, onboarding_fetch_url,
    onboarding_upload, upsert_url, user_url,
};

const BASE: &str = "https://project.supabase.co";

fn state(step: &str, index: u8, at: Option<&str>) -> OnboardingState {
    OnboardingState {
        completed: false,
        current_step: step.into(),
        step_index: index,
        updated_at: at.map(|t| t.to_string()),
    }
}

#[test]
fn rest_urls_filter_by_user() {
    assert_eq!(
        config_fetch_url(BASE, "u-1").unwrap(),
        "https://project.supabase.co/rest/v1/user_config?user_id=eq.u-1&select=config"
    );
    assert_eq!(
        onboarding_fetch_url(BASE, "u 1").unwrap(),
        "https://project.supabase.co/rest/v1/user_onboarding_state?user_id=eq.u+1&select=completed%2Ccurrent_step%2Cstep_index%2Cupdated_at&limit=1"
    );
    assert_eq!(
        upsert_url(BASE, "user_config").unwrap(),
        "https://project.supabase.co/rest/v1/user_config?on_conflict=user_id"
    );
    assert_eq!(user_url(BASE), "https://project.supabase.co/auth/v1/user");
}

#[test]
fn invalid_supabase_address_is_reported() {
    let err = config_fetch_url("no scheme", "u").unwrap_err();
    assert!(err.starts_with("Invalid Supabase URL: "));
    assert_eq!(err, "Invalid Supabase URL: relative URL without a base");
}

#[test]
fn fetched_config_defaults_sanitises_or_fails() {
    let empty = fetched_config(None).unwrap();
    assert_eq!(empty.stock_symbols.len(), 20);
    let mut c = Config::default();
    c.stock_symbols = vec![" spy ".into()];
    assert_eq!(fetched_config(Some(Ok(c))).unwrap().stock_symbols, vec!["SPY"]);
    assert_eq!(
        fetched_config(Some(Err("missing field".into()))).err(),
        Some("Deserialize failed: missing field".to_string())
    );
}

#[test]
fn first_onboarding_row_is_sanitised() {
    assert!(first_onboarding_row(Vec::new()).is_none());
    let first = first_onboarding_row(vec![state(" ready ", 9, None), state("backup", 2, None)])
        .unwrap();
    assert_eq!(first.current_step, "ready");
    assert_eq!(first.step_index, 4);
}

#[test]
fn uploaded_onboarding_is_stamped() {
    let now = "2026-07-16T10:00:00+00:00".to_string();
    let s = onboarding_upload(state("account", 1, None), now.clone());
    assert_eq!(s.updated_at.as_deref(), Some(now.as_str()));
    let s = onboarding_upload(state("account", 1, Some("bogus")), now.clone());
    assert_eq!(s.updated_at.as_deref(), Some(now.as_str()));
    let s = onboarding_upload(state("account", 1, Some("2025-01-01T00:00:00Z")), now);
    assert_eq!(s.updated_at.as_deref(), Some("2025-01-01T00:00:00Z"));
}
