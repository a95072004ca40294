use happy_wakey::env_config::{
    builtin_flags, env_assignments, parse_flags, resolve_flag, ParsedFlags,
};

fn args(list: &[&str]) -> Vec<String> {
    list.iter().map(|s| s.to_string()).collect()
}

#[test]
fn builtin_flags_cover_the_services() {
    let flags = builtin_flags();
    assert_eq!(flags.len(), 9);
    assert_eq!(flags[0].env, "SUPABASE_URL");
    assert_eq!(flags[0].short.as_deref(), Some("s"));
    assert_eq!(
        flags[0].default_val.as_deref(),
        Some("https://gtbeuxcolbpuipvqiibn.supabase.co")
    );
    assert_eq!(flags[2].aliases, vec!["openweather-api-key", "owm-key"]);
    assert_eq!(flags[3].env, "OPEN_METEO_BASE_URL");
    assert_eq!(flags[3].aliases, vec!["open-meteo-base-url"]);
    assert_eq!(flags[3].default_val.as_deref(), Some("https://api.open-meteo.com"));
    assert_eq!(flags[4].env, "OPEN_METEO_API_KEY");
    assert_eq!(flags[4].short, None);
    assert_eq!(flags[8].env, "CONFIG_DIR");
}

#[test]
fn flags_take_equals_next_and_boolean_forms() {
    let parsed = parse_flags(&args(&[
        "happy-wakey",
        "--owm-key=abc=def",
        "--newsapi-key",
        "n1",
        "--verbose",
        "--git-repo",
        "-x",
        "-f",
        "fk",
        "-q",
        "stray",
    ]));
    assert_eq!(parsed.get("owm-key").as_deref(), Some("abc=def"));
    assert_eq!(parsed.get("newsapi-key").as_deref(), Some("n1"));
    assert_eq!(parsed.get("verbose").as_deref(), Some("true"));
    assert_eq!(parsed.get("git-repo").as_deref(), Some("true"));
    assert_eq!(parsed.get("x").as_deref(), Some("true"));
    assert_eq!(parsed.get("f").as_deref(), Some("fk"));
    assert_eq!(parsed.get("q").as_deref(), Some("stray"));
    assert_eq!(parsed.get("happy-wakey"), None);
}

#[test]
fn later_flag_replaces_earlier() {
    let parsed = parse_flags(&args(&["--config-dir=/a", "--config-dir", "/b"]));
    assert_eq!(parsed.get("config-dir").as_deref(), Some("/b"));
    let mut p = ParsedFlags::new();
    p.insert("k".into(), "1".into());
    p.insert("k".into(), "2".into());
    assert_eq!(p.get("k").as_deref(), Some("2"));
}

#[test]
fn long_aliases_win_over_the_short_flag() {
    let flags = builtin_flags();
    let parsed = parse_flags(&args(&["-w", "short", "--owm-key", "alias2", "--openweather-api-key=alias1"]));
    assert_eq!(resolve_flag(&parsed, &flags[2]).as_deref(), Some("alias1"));
    let parsed = parse_flags(&args(&["-w", "short"]));
    assert_eq!(resolve_flag(&parsed, &flags[2]).as_deref(), Some("short"));
    assert_eq!(resolve_flag(&parsed, &flags[1]), None);
}

#[test]
fn command_line_wins_over_defaults() {
    let flags = builtin_flags();
    let nothing: Vec<String> = Vec::new();
    let no_dotenv: Vec<(String, String)> = Vec::new();
    let none = parse_flags(&args(&[]));
    assert_eq!(
        env_assignments(&flags, &nothing, &no_dotenv, &none),
        vec![
            (
                "SUPABASE_URL".to_string(),
                "https://gtbeuxcolbpuipvqiibn.supabase.co".to_string()
            ),
            (
                "OPEN_METEO_BASE_URL".to_string(),
                "https://api.open-meteo.com".to_string()
            ),
        ]
    );
    let set = vec!["SUPABASE_URL".to_string(), "OPEN_METEO_BASE_URL".to_string()];
    assert!(env_assignments(&flags, &set, &no_dotenv, &none).is_empty());
    let parsed = parse_flags(&args(&["-s", "https://mine.example", "--config-dir", "/cfg"]));
    let out = env_assignments(&flags, &set, &no_dotenv, &parsed);
    assert_eq!(
        out,
        vec![
            ("SUPABASE_URL".to_string(), "https://mine.example".to_string()),
            ("CONFIG_DIR".to_string(), "/cfg".to_string()),
        ]
    );
    let out = env_assignments(&flags, &nothing, &no_dotenv, &parsed);
    assert_eq!(out.len(), 4);
    assert_eq!(out[3].1, "/cfg");
    assert_eq!(out.iter().rev().find(|(k, _)| k == "SUPABASE_URL").unwrap().1, "https://mine.example");
}

#[test]
fn dotenv_sits_between_environment_and_defaults() {
    let flags = builtin_flags();
    let dotenv = vec![
        ("SUPABASE_URL".to_string(), "https://from-dotenv.example".to_string()),
        ("NEWSAPI_KEY".to_string(), "first".to_string()),
        ("NEWSAPI_KEY".to_string(), "second".to_string()),
        ("HAPPY_WAKEY_BUNDLE_ID".to_string(), "com.example.hw".to_string()),
        ("FINNHUB_API_KEY".to_string(), "ignored".to_string()),
    ];
    let present = vec!["FINNHUB_API_KEY".to_string()];
    let none = parse_flags(&args(&[]));
    let out = env_assignments(&flags, &present, &dotenv, &none);
    assert_eq!(
        out,
        vec![
            ("SUPABASE_URL".to_string(), "https://from-dotenv.example".to_string()),
            ("NEWSAPI_KEY".to_string(), "first".to_string()),
            ("HAPPY_WAKEY_BUNDLE_ID".to_string(), "com.example.hw".to_string()),
            (
                "OPEN_METEO_BASE_URL".to_string(),
                "https://api.open-meteo.com".to_string()
            ),
        ]
    );
    let cli = parse_flags(&args(&["--newsapi-key=cli"]));
    let out = env_assignments(&flags, &present, &dotenv, &cli);
    assert_eq!(out.last().unwrap(), &("NEWSAPI_KEY".to_string(), "cli".to_string()));
}

#[test]
fn trailing_pair_wins() {
    let parsed = parse_flags(&args(&["--k", "1", "-k", "2", "--k=3"]));
    assert_eq!(parsed.get("k").as_deref(), Some("3"));
    let parsed = parse_flags(&args(&["--owm-key", "--owm-key=x=y"]));
    assert_eq!(parsed.get("owm-key").as_deref(), Some("x=y"));
}
