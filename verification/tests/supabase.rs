use happy_wakey::supabase::{
    authorize_url, callback_code, callback_reply, callback_response, code_exchange_form,
    generate_nonce, generate_pkce, normalize_provider, oauth_port, parse_callback, pkce_from_bytes,
    redirect_uri, refresh_form, request_target, require_anon_key, session_from_token, token_url,
    AuthTokenResponse, AuthUser,
};
use happy_wakey::weburl::UrlParts;

fn callback_parts(pairs: &[(&str, &str)]) -> UrlParts {
    UrlParts {
        scheme: "http".into(),
        host: Some("127.0.0.1".into()),
        serialization: "http://127.0.0.1/callback".into(),
        query: pairs
            .iter()
            .map(|(k, v)| (k.to_string(), v.to_string()))
            .collect(),
    }
}

#[test]
fn providers_are_normalised() {
    assert_eq!(normalize_provider(" Google "), Ok("google".to_string()));
    assert_eq!(normalize_provider("APPLE"), Ok("apple".to_string()));
    assert_eq!(normalize_provider("microsoft"), Ok("azure".to_string()));
    assert_eq!(normalize_provider("Azure"), Ok("azure".to_string()));
    assert_eq!(
        normalize_provider("github"),
        Err("Unsupported login provider".to_string())
    );
}

#[test]
fn anon_key_must_not_be_blank() {
    assert_eq!(
        require_anon_key("  "),
        Err("SUPABASE_ANON_KEY is not configured".to_string())
    );
    assert_eq!(require_anon_key(" key "), Ok(" key ".to_string()));
}

#[test]
fn pkce_pair_matches_the_rfc_example() {
    let verifier_bytes: [u8; 32] = [
        116, 24, 223, 180, 151, 153, 224, 37, 79, 250, 96, 125, 216, 173, 187, 186, 22, 212, 37,
        77, 105, 214, 191, 240, 91, 88, 5, 88, 83, 132, 141, 121,
    ];
    let (verifier, challenge) = pkce_from_bytes(&verifier_bytes);
    assert_eq!(verifier, "dBjftJeZ4CVP-mB92K27uhbUJU1p1r_wW1gFWFOEjXk");
    assert_eq!(challenge, "E9Melhoa2OwvFrEMTJguCHaoeK1t8URWbuGJSstw-cM");
}

#[test]
fn fresh_pkce_and_nonce_have_their_lengths() {
    let (verifier, challenge) = generate_pkce();
    assert_eq!(verifier.len(), 86);
    assert_eq!(challenge.len(), 43);
    assert_ne!(verifier, challenge);
    assert!(verifier
        .chars()
        .all(|c| c.is_ascii_alphanumeric() || c == '-' || c == '_'));
    assert_eq!(generate_nonce().len(), 43);
}

#[test]
fn authorize_url_carries_the_pkce_query() {
    assert_eq!(redirect_uri(8765), "http://127.0.0.1:8765/callback");
    let url = authorize_url(
        "https://project.supabase.co//",
        "google",
        &redirect_uri(8765),
        "challenge",
        "state-1",
    )
    .unwrap();
    assert_eq!(
        url,
        "https://project.supabase.co/auth/v1/authorize?provider=google&redirect_to=http%3A%2F%2F127.0.0.1%3A8765%2Fcallback&code_challenge=challenge&code_challenge_method=s256&response_type=code&state=state-1"
    );
    assert!(authorize_url("not a url", "google", "r", "c", "s")
        .unwrap_err()
        .starts_with("Invalid Supabase auth URL: "));
}

#[test]
fn request_target_is_the_second_word_of_the_first_line() {
    assert_eq!(
        request_target("GET /callback?code=1 HTTP/1.1\r\nHost: x\r\n\r\n").as_deref(),
        Some("/callback?code=1")
    );
    assert_eq!(request_target("GET\r\n"), None);
    assert_eq!(request_target(""), None);
    assert_eq!(request_target("  POST   /a  b").as_deref(), Some("/a"));
}

#[test]
fn callback_checks_state_error_and_code() {
    assert_eq!(
        parse_callback(&callback_parts(&[("code", "c1"), ("state", "s1")]), "s1"),
        Ok("c1".to_string())
    );
    assert_eq!(
        parse_callback(&callback_parts(&[("code", "c1"), ("state", "other")]), "s1"),
        Err("OAuth state check failed".to_string())
    );
    assert_eq!(
        parse_callback(&callback_parts(&[("code", "c1")]), "s1"),
        Err("OAuth state check failed".to_string())
    );
    assert_eq!(
        parse_callback(
            &callback_parts(&[("state", "s1"), ("error", "access_denied"), ("error_description", "User said no")]),
            "s1"
        ),
        Err("User said no".to_string())
    );
    assert_eq!(
        parse_callback(&callback_parts(&[("state", "s1"), ("error", "access_denied")]), "s1"),
        Err("access_denied".to_string())
    );
    assert_eq!(
        parse_callback(&callback_parts(&[("state", "s1")]), "s1"),
        Err("OAuth callback did not include an authorization code".to_string())
    );
    assert_eq!(
        parse_callback(&callback_parts(&[("code", "a"), ("state", "s1"), ("code", "b")]), "s1"),
        Ok("b".to_string())
    );
}

#[test]
fn callback_request_text_gives_the_code() {
    assert_eq!(
        callback_code("GET /callback?code=abc%20d&state=s1 HTTP/1.1\r\n\r\n", "s1"),
        Ok("abc d".to_string())
    );
    assert_eq!(
        callback_code("GET /favicon.ico HTTP/1.1\r\n", "s1"),
        Err("Unknown OAuth callback path".to_string())
    );
    assert_eq!(
        callback_code("garbage", "s1"),
        Err("Bad OAuth callback request".to_string())
    );
}

#[test]
fn callback_response_escapes_and_counts_bytes() {
    let r = callback_response("200 OK", "a<b>&é");
    let html = "<!DOCTYPE html><html><head><meta charset=\"utf-8\"><title>Happy Wakey</title></head><body><p>a&lt;b&gt;&amp;é</p><script>window.close();</script></body></html>";
    assert_eq!(
        r,
        format!(
            "HTTP/1.1 200 OK\r\nContent-Type: text/html; charset=utf-8\r\nContent-Length: {}\r\nConnection: close\r\n\r\n{}",
            html.len(),
            html
        )
    );
    assert!(callback_reply(true).contains("Authentication complete."));
    assert!(callback_reply(false).contains("Authentication failed."));
}

#[test]
fn token_forms_and_session() {
    assert_eq!(token_url("https://p.supabase.co"), "https://p.supabase.co/auth/v1/token");
    assert_eq!(
        refresh_form("rt"),
        vec![
            ("grant_type".to_string(), "refresh_token".to_string()),
            ("refresh_token".to_string(), "rt".to_string())
        ]
    );
    let form = code_exchange_form("v", "c", "http://127.0.0.1:1/callback");
    assert_eq!(form[0], ("grant_type".to_string(), "authorization_code".to_string()));
    assert_eq!(form[3], ("code_verifier".to_string(), "v".to_string()));
    let session = session_from_token(
        AuthTokenResponse {
            access_token: "at".into(),
            refresh_token: "rt".into(),
            expires_in: 3600,
            user: AuthUser {
                id: "u1".into(),
                email: Some("me@example.com".into()),
            },
        },
        1_000,
    );
    assert_eq!(session.expires_at, 4_600);
    assert_eq!(session.user_id, "u1");
    assert_eq!(session.access_token, "at");
    assert_eq!(session.email.as_deref(), Some("me@example.com"));
}

#[test]
fn oauth_port_defaults_to_the_registered_one() {
    assert_eq!(oauth_port(None), 47217);
    assert_eq!(oauth_port(Some(" 8080 ")), 8080);
    assert_eq!(oauth_port(Some("0")), 47217);
    assert_eq!(oauth_port(Some("65536")), 47217);
    assert_eq!(oauth_port(Some("123456")), 47217);
    assert_eq!(oauth_port(Some("80a")), 47217);
    assert_eq!(oauth_port(Some("")), 47217);
    assert_eq!(oauth_port(Some("65535")), 65535);
}
