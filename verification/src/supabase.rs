//! Supabase sign-in with PKCE: the provider names, the PKCE pair, the authorisation address,
//! the loopback callback and the session a token response gives.
use base64::Engine;
use rand::Rng;
use sha2::Digest;
use vstd::prelude::*;

use crate::config::opt_view;
use crate::env_config::last_value;
use crate::text::{
    chars_of, decimal, eq_str, find_char, find_char_exec, from_str, is_whitespace,
    is_whitespace_spec, lower_case, push_all, push_decimal_u64, push_str, starts_with,
    starts_with_spec, string_of, to_lowercase, trim, trim_spec, utf8_len, utf8_length,
};
use crate::weburl::{UrlParts, pairs_view, parse_url, url_parse_result, url_with_query, url_with_query_result};

verus! {

/// A signed-in Supabase session.
pub struct SupabaseSession {
    pub access_token: String,
    pub refresh_token: String,
    pub expires_at: i64,
    pub user_id: String,
    pub email: Option<String>,
}

/// The user of a token response.
pub struct AuthUser {
    pub id: String,
    pub email: Option<String>,
}

/// What Supabase's token endpoint answers.
pub struct AuthTokenResponse {
    pub access_token: String,
    pub refresh_token: String,
    pub expires_in: i64,
    pub user: AuthUser,
}

// ---------------------------------------------------------------------------
// Providers and keys
// ---------------------------------------------------------------------------

/// The Supabase name of a sign-in provider: `google`, `apple`, or `azure` for `microsoft` or
/// `azure`, compared trimmed and in lower case.
pub open spec fn normalize_provider_spec(provider: Seq<char>) -> Result<Seq<char>, Seq<char>> {
    let p = lower_case(trim_spec(provider));
    if p == "google"@ {
        Ok("google"@)
    } else if p == "apple"@ {
        Ok("apple"@)
    } else if p == "microsoft"@ || p == "azure"@ {
        Ok("azure"@)
    } else {
        Err("Unsupported login provider"@)
    }
}

pub open spec fn result_view(r: Result<String, String>) -> Result<Seq<char>, Seq<char>> {
    match r {
        Ok(s) => Ok(s@),
        Err(e) => Err(e@),
    }
}

pub fn normalize_provider(provider: &str) -> (r: Result<String, String>)
    ensures
        result_view(r) == normalize_provider_spec(provider@),
{
    let trimmed = string_of(&trim(&chars_of(provider)));
    let lower = chars_of(to_lowercase(trimmed.as_str()).as_str());
    if eq_str(&lower, "google") {
        Ok(from_str("google"))
    } else if eq_str(&lower, "apple") {
        Ok(from_str("apple"))
    } else if eq_str(&lower, "microsoft") || eq_str(&lower, "azure") {
        Ok(from_str("azure"))
    } else {
        Err(from_str("Unsupported login provider"))
    }
}

/// The anonymous key, refused when it is blank.
pub open spec fn require_anon_key_spec(key: Seq<char>) -> Result<Seq<char>, Seq<char>> {
    if trim_spec(key).len() == 0 {
        Err("SUPABASE_ANON_KEY is not configured"@)
    } else {
        Ok(key)
    }
}

/// Checks the configured anonymous key.
pub fn require_anon_key(key: &str) -> (r: Result<String, String>)
    ensures
        result_view(r) == require_anon_key_spec(key@),
{
    if trim(&chars_of(key)).len() == 0 {
        Err(from_str("SUPABASE_ANON_KEY is not configured"))
    } else {
        Ok(from_str(key))
    }
}

// ---------------------------------------------------------------------------
// PKCE
// ---------------------------------------------------------------------------

/// The SHA-256 digest of these bytes.
pub uninterp spec fn sha256_digest(bytes: Seq<u8>) -> Seq<u8>;

/// A character of the URL-safe base64 alphabet: `A`-`Z`, `a`-`z`, `0`-`9`, `-`, `_`.
pub open spec fn url_safe_char(c: char) -> bool {
    ('A' <= c <= 'Z') || ('a' <= c <= 'z') || ('0' <= c <= '9') || c == '-' || c == '_'
}

/// The character for a six-bit value in the URL-safe alphabet
/// `A`-`Z`, `a`-`z`, `0`-`9`, `-`, `_` (`alphabet::URL_SAFE`).
pub open spec fn url_safe_digit(v: int) -> char {
    if v < 26 {
        (65 + v) as char
    } else if v < 52 {
        (97 + v - 26) as char
    } else if v < 62 {
        (48 + v - 52) as char
    } else if v == 62 {
        '-'
    } else {
        '_'
    }
}

/// URL-safe base64 without padding: each three bytes give four characters, six bits each,
/// most significant first; a last one or two bytes give two or three characters, their
/// remaining bits padded with zeros.
pub open spec fn base64_url_no_pad(bytes: Seq<u8>) -> Seq<char>
    decreases bytes.len(),
{
    if bytes.len() == 0 {
        Seq::empty()
    } else if bytes.len() == 1 {
        let b0 = bytes[0] as int;
        seq![url_safe_digit(b0 / 4), url_safe_digit((b0 % 4) * 16)]
    } else if bytes.len() == 2 {
        let b0 = bytes[0] as int;
        let b1 = bytes[1] as int;
        seq![
            url_safe_digit(b0 / 4),
            url_safe_digit((b0 % 4) * 16 + b1 / 16),
            url_safe_digit((b1 % 16) * 4),
        ]
    } else {
        let b0 = bytes[0] as int;
        let b1 = bytes[1] as int;
        let b2 = bytes[2] as int;
        seq![
            url_safe_digit(b0 / 4),
            url_safe_digit((b0 % 4) * 16 + b1 / 16),
            url_safe_digit((b1 % 16) * 4 + b2 / 64),
            url_safe_digit(b2 % 64),
        ] + base64_url_no_pad(bytes.skip(3))
    }
}

/// The encoding has `ceil(4n / 3)` characters, all URL-safe.
pub proof fn lemma_base64_shape(bytes: Seq<u8>)
    ensures
        base64_url_no_pad(bytes).len() == (4 * bytes.len() + 2) / 3,
        forall|i: int|
            0 <= i < base64_url_no_pad(bytes).len() ==> url_safe_char(
                #[trigger] base64_url_no_pad(bytes)[i],
            ),
    decreases bytes.len(),
{
    assert forall|v: int| 0 <= v < 64 implies url_safe_char(#[trigger] url_safe_digit(v)) by {}
    if bytes.len() >= 3 {
        lemma_base64_shape(bytes.skip(3));
        let b0 = bytes[0] as int;
        let b1 = bytes[1] as int;
        let b2 = bytes[2] as int;
        assert(0 <= b0 / 4 < 64 && 0 <= (b0 % 4) * 16 + b1 / 16 < 64 && 0 <= (b1 % 16) * 4 + b2
            / 64 < 64 && 0 <= b2 % 64 < 64);
        let head = seq![
            url_safe_digit(b0 / 4),
            url_safe_digit((b0 % 4) * 16 + b1 / 16),
            url_safe_digit((b1 % 16) * 4 + b2 / 64),
            url_safe_digit(b2 % 64),
        ];
        let tail = base64_url_no_pad(bytes.skip(3));
        assert forall|i: int| 0 <= i < (head + tail).len() implies url_safe_char(
            #[trigger] (head + tail)[i],
        ) by {
            if i >= 4 {
                assert((head + tail)[i] == tail[i - 4]);
            }
        }
    } else if bytes.len() == 2 {
        let b0 = bytes[0] as int;
        let b1 = bytes[1] as int;
        assert(0 <= b0 / 4 < 64 && 0 <= (b0 % 4) * 16 + b1 / 16 < 64 && 0 <= (b1 % 16) * 4 < 64);
    } else if bytes.len() == 1 {
        let b0 = bytes[0] as int;
        assert(0 <= b0 / 4 < 64 && 0 <= (b0 % 4) * 16 < 64);
    }
}

/// `base64::engine::general_purpose::URL_SAFE_NO_PAD.encode`: unpadded URL-safe base64, as
/// `base64_url_no_pad` writes it out. The length (`encoded_len`) must fit in `usize`, or
/// `encode` panics.
#[verifier::external_body]
fn encode_base64_url(bytes: &[u8]) -> (r: String)
    requires
        4 * bytes@.len() + 2 <= usize::MAX,
    ensures
        r@ == base64_url_no_pad(bytes@),
{
    base64::engine::general_purpose::URL_SAFE_NO_PAD.encode(bytes)
}

/// `Sha256::digest` (sha2): the digest, named by `sha256_digest`, is 32 bytes long.
#[verifier::external_body]
fn sha256(bytes: &[u8]) -> (r: Vec<u8>)
    ensures
        r@ == sha256_digest(bytes@),
        r@.len() == 32,
{
    sha2::Sha256::digest(bytes).to_vec()
}

/// `n` bytes from `rand::thread_rng().gen()`. They are random; only their number is stated.
#[verifier::external_body]
fn random_bytes(n: usize) -> (r: Vec<u8>)
    ensures
        r@.len() == n,
{
    let mut rng = rand::thread_rng();
    (0..n).map(|_| rng.gen::<u8>()).collect()
}

/// The PKCE pair for a verifier made of these bytes: the verifier is their URL-safe base64,
/// the challenge the URL-safe base64 of the SHA-256 of the verifier's UTF-8 bytes.
pub open spec fn pkce_spec(verifier_bytes: Seq<u8>) -> (Seq<char>, Seq<char>) {
    let verifier = base64_url_no_pad(verifier_bytes);
    (verifier, base64_url_no_pad(sha256_digest(vstd::utf8::encode_utf8(verifier))))
}

/// The PKCE verifier and challenge for these verifier bytes: the verifier has
/// `ceil(4n / 3)` characters and the challenge 43, all URL-safe.
pub fn pkce_from_bytes(verifier_bytes: &[u8]) -> (r: (String, String))
    requires
        4 * verifier_bytes@.len() + 2 <= usize::MAX,
    ensures
        (r.0@, r.1@) == pkce_spec(verifier_bytes@),
        r.0@.len() == (4 * verifier_bytes@.len() + 2) / 3,
        r.1@.len() == 43,
        forall|i: int| 0 <= i < r.0@.len() ==> url_safe_char(#[trigger] r.0@[i]),
        forall|i: int| 0 <= i < r.1@.len() ==> url_safe_char(#[trigger] r.1@[i]),
{
    let code_verifier = encode_base64_url(verifier_bytes);
    let digest = sha256(code_verifier.as_str().as_bytes());
    let code_challenge = encode_base64_url(digest.as_slice());
    proof {
        lemma_base64_shape(verifier_bytes@);
        lemma_base64_shape(digest@);
    }
    (code_verifier, code_challenge)
}

/// A fresh PKCE verifier and challenge: 64 random bytes make the verifier, 86 URL-safe
/// characters; the challenge has 43.
pub fn generate_pkce() -> (r: (String, String))
    ensures
        exists|bytes: Seq<u8>| bytes.len() == 64 && (r.0@, r.1@) == #[trigger] pkce_spec(bytes),
        r.0@.len() == 86,
        r.1@.len() == 43,
        forall|i: int| 0 <= i < r.0@.len() ==> url_safe_char(#[trigger] r.0@[i]),
        forall|i: int| 0 <= i < r.1@.len() ==> url_safe_char(#[trigger] r.1@[i]),
{
    let bytes = random_bytes(64);
    let r = pkce_from_bytes(bytes.as_slice());
    assert((r.0@, r.1@) == pkce_spec(bytes@));
    r
}

/// A fresh `state` value: 32 random bytes in URL-safe base64, 43 characters.
pub fn generate_nonce() -> (r: String)
    ensures
        exists|bytes: Seq<u8>| bytes.len() == 32 && r@ == #[trigger] base64_url_no_pad(bytes),
        r@.len() == 43,
        forall|i: int| 0 <= i < r@.len() ==> url_safe_char(#[trigger] r@[i]),
{
    let bytes = random_bytes(32);
    proof {
        lemma_base64_shape(bytes@);
    }
    encode_base64_url(bytes.as_slice())
}

// ---------------------------------------------------------------------------
// The authorisation address
// ---------------------------------------------------------------------------

/// `s` without its trailing slashes.
pub open spec fn trim_trailing_slashes(s: Seq<char>) -> Seq<char>
    decreases s.len(),
{
    if s.len() > 0 && s.last() == '/' {
        trim_trailing_slashes(s.drop_last())
    } else {
        s
    }
}

/// The value of a string of decimal digits.
pub open spec fn digits_value(s: Seq<char>) -> int
    decreases s.len(),
{
    if s.len() == 0 {
        0
    } else {
        digits_value(s.drop_last()) * 10 + (s.last() as int - '0' as int)
    }
}

/// The port of the loopback listener: `HAPPY_WAKEY_OAUTH_PORT` (`configured`) when, trimmed,
/// it is a decimal number from 1 to 65535 of at most five digits; otherwise 47217, the port
/// registered with Supabase.
pub open spec fn oauth_port_spec(configured: Option<Seq<char>>) -> u16 {
    match configured {
        Some(v) => {
            let t = trim_spec(v);
            if 0 < t.len() <= 5 && (forall|i: int| 0 <= i < t.len() ==> '0' <= #[trigger] t[i] <= '9')
                && 0 < digits_value(t) <= 65535 {
                digits_value(t) as u16
            } else {
                47217
            }
        },
        None => 47217,
    }
}

/// The port to listen on for the sign-in callback.
pub fn oauth_port(configured: Option<&str>) -> (r: u16)
    ensures
        r == oauth_port_spec(
            match configured {
                Some(c) => Some(c@),
                None => None,
            },
        ),
{
    let v = match configured {
        Some(v) => v,
        None => return 47217,
    };
    let t = trim(&chars_of(v));
    if t.len() == 0 || t.len() > 5 {
        return 47217;
    }
    let mut value: u32 = 0;
    let mut bound: u32 = 1;
    let mut i: usize = 0;
    while i < t.len()
        invariant
            i <= t.len() <= 5,
            configured == Some(v),
            t@ == trim_spec(v@),
            forall|k: int| 0 <= k < i ==> '0' <= #[trigger] t@[k] <= '9',
            value == digits_value(t@.take(i as int)),
            value < bound,
            bound <= 100000,
            bound == 1 || i > 0,
            i == 0 ==> bound == 1,
            i == 1 ==> bound == 10,
            i == 2 ==> bound == 100,
            i == 3 ==> bound == 1000,
            i == 4 ==> bound == 10000,
            i == 5 ==> bound == 100000,
        decreases t.len() - i,
    {
        let c = t[i];
        if !('0' <= c && c <= '9') {
            assert(!('0' <= t@[i as int] <= '9'));
            return 47217;
        }
        let d = (c as u32) - ('0' as u32);
        assert(value * 10 + d < bound * 10) by (nonlinear_arith)
            requires
                value < bound,
                d <= 9,
        ;
        proof {
            assert(t@.take(i + 1).drop_last() =~= t@.take(i as int));
        }
        value = value * 10 + d;
        bound = bound * 10;
        i = i + 1;
    }
    assert(t@.take(t.len() as int) =~= t@);
    if value == 0 || value > 65535 {
        47217
    } else {
        value as u16
    }
}

/// The loopback address the browser is sent back to.
pub open spec fn redirect_uri_spec(port: u16) -> Seq<char> {
    "http://127.0.0.1:"@ + decimal(port as int) + "/callback"@
}

pub fn redirect_uri(port: u16) -> (r: String)
    ensures
        r@ == redirect_uri_spec(port),
{
    let mut out: Vec<char> = chars_of("http://127.0.0.1:");
    push_decimal_u64(&mut out, port as u64);
    push_str(&mut out, "/callback");
    string_of(&out)
}

/// The query of the authorisation request.
pub open spec fn authorize_pairs(
    provider: Seq<char>,
    redirect_uri: Seq<char>,
    code_challenge: Seq<char>,
    state: Seq<char>,
) -> Seq<(Seq<char>, Seq<char>)> {
    seq![
        ("provider"@, provider),
        ("redirect_to"@, redirect_uri),
        ("code_challenge"@, code_challenge),
        ("code_challenge_method"@, "s256"@),
        ("response_type"@, "code"@),
        ("state"@, state),
    ]
}

/// The address that starts sign-in: `/auth/v1/authorize` under the Supabase address (its
/// trailing slashes dropped) with the PKCE query.
pub open spec fn authorize_url_spec(
    supabase_url: Seq<char>,
    provider: Seq<char>,
    redirect_uri: Seq<char>,
    code_challenge: Seq<char>,
    state: Seq<char>,
) -> Result<Seq<char>, Seq<char>> {
    match url_with_query_result(
        trim_trailing_slashes(supabase_url) + "/auth/v1/authorize"@,
        authorize_pairs(provider, redirect_uri, code_challenge, state),
    ) {
        Ok(u) => Ok(u),
        Err(e) => Err("Invalid Supabase auth URL: "@ + e),
    }
}

fn pair(key: &str, value: &str) -> (r: (String, String))
    ensures
        r.0@ == key@,
        r.1@ == value@,
{
    (from_str(key), from_str(value))
}

pub fn authorize_url(
    supabase_url: &str,
    provider: &str,
    redirect_uri: &str,
    code_challenge: &str,
    state: &str,
) -> (r: Result<String, String>)
    ensures
        result_view(r) == authorize_url_spec(
            supabase_url@,
            provider@,
            redirect_uri@,
            code_challenge@,
            state@,
        ),
{
    let mut base = chars_of(supabase_url);
    let ghost full = base@;
    while base.len() > 0 && base[base.len() - 1] == '/'
        invariant
            trim_trailing_slashes(full) == trim_trailing_slashes(base@),
        decreases base.len(),
    {
        base.pop();
    }
    push_str(&mut base, "/auth/v1/authorize");
    let mut pairs: Vec<(String, String)> = Vec::new();
    pairs.push(pair("provider", provider));
    pairs.push(pair("redirect_to", redirect_uri));
    pairs.push(pair("code_challenge", code_challenge));
    pairs.push(pair("code_challenge_method", "s256"));
    pairs.push(pair("response_type", "code"));
    pairs.push(pair("state", state));
    assert(pairs_view(pairs@) =~= authorize_pairs(provider@, redirect_uri@, code_challenge@, state@));
    match url_with_query(string_of(&base).as_str(), &pairs) {
        Ok(u) => Ok(u),
        Err(e) => {
            let mut msg = chars_of("Invalid Supabase auth URL: ");
            push_str(&mut msg, e.as_str());
            Err(string_of(&msg))
        },
    }
}

// ---------------------------------------------------------------------------
// The loopback callback
// ---------------------------------------------------------------------------

/// The first line of a text (`str::lines().next()`): up to the first line feed, a carriage
/// return before it dropped; none for empty text.
pub open spec fn first_line(s: Seq<char>) -> Option<Seq<char>> {
    if s.len() == 0 {
        None
    } else {
        match find_char(s, '\n') {
            Some(i) => {
                let l = s.take(i);
                Some(
                    if l.len() > 0 && l.last() == '\r' {
                        l.drop_last()
                    } else {
                        l
                    },
                )
            },
            None => Some(s),
        }
    }
}

/// The words of `s` after the word being read, `cur` (`str::split_whitespace`).
pub open spec fn words_from(s: Seq<char>, cur: Seq<char>) -> Seq<Seq<char>>
    decreases s.len(),
{
    if s.len() == 0 {
        if cur.len() > 0 {
            seq![cur]
        } else {
            Seq::empty()
        }
    } else if is_whitespace_spec(s[0]) {
        (if cur.len() > 0 {
            seq![cur]
        } else {
            Seq::empty()
        }) + words_from(s.drop_first(), Seq::empty())
    } else {
        words_from(s.drop_first(), cur.push(s[0]))
    }
}

/// The words of `s`, split at white space.
pub open spec fn words(s: Seq<char>) -> Seq<Seq<char>> {
    words_from(s, Seq::empty())
}

/// The request target of an HTTP request: the second word of its first line.
pub open spec fn request_target_spec(request: Seq<char>) -> Option<Seq<char>> {
    match first_line(request) {
        Some(l) => if words(l).len() > 1 {
            Some(words(l)[1])
        } else {
            None
        },
        None => None,
    }
}

fn first_line_exec(s: &Vec<char>) -> (r: Option<Vec<char>>)
    ensures
        match r {
            Some(l) => first_line(s@) == Some(l@),
            None => first_line(s@) is None,
        },
{
    if s.len() == 0 {
        return None;
    }
    match find_char_exec(s, '\n') {
        Some(i) => {
            let mut l: Vec<char> = Vec::new();
            let mut k: usize = 0;
            while k < i
                invariant
                    k <= i < s.len(),
                    l@ == s@.take(k as int),
                decreases i - k,
            {
                l.push(s[k]);
                k = k + 1;
                assert(l@ =~= s@.take(k as int));
            }
            if l.len() > 0 && l[l.len() - 1] == '\r' {
                l.pop();
            }
            Some(l)
        },
        None => {
            let mut l: Vec<char> = Vec::new();
            push_all(&mut l, s);
            Some(l)
        },
    }
}

/// The second word of `s`.
fn second_word(s: &Vec<char>) -> (r: Option<Vec<char>>)
    ensures
        match r {
            Some(w) => words(s@).len() > 1 && words(s@)[1] == w@,
            None => words(s@).len() <= 1,
        },
{
    let mut found: Vec<Vec<char>> = Vec::new();
    let mut cur: Vec<char> = Vec::new();
    let mut i: usize = 0;
    assert(s@.skip(0) =~= s@);
    assert(Seq::<Seq<char>>::empty() + words_from(s@, Seq::empty()) =~= words(s@));
    while i < s.len()
        invariant
            i <= s.len(),
            found@.map_values(|v: Vec<char>| v@) + words_from(s@.skip(i as int), cur@) == words(s@),
        decreases s.len() - i,
    {
        let c = s[i];
        let ghost before = found@.map_values(|v: Vec<char>| v@);
        let ghost rest = s@.skip(i as int);
        assert(rest[0] == c);
        assert(rest.drop_first() =~= s@.skip(i + 1));
        if is_whitespace(c) {
            if cur.len() > 0 {
                let ghost w = cur@;
                let mut taken: Vec<char> = Vec::new();
                std::mem::swap(&mut taken, &mut cur);
                found.push(taken);
                assert(found@.map_values(|v: Vec<char>| v@) =~= before.push(w));
                assert(before + (seq![w] + words_from(s@.skip(i + 1), Seq::empty())) =~= before.push(
                    w,
                ) + words_from(s@.skip(i + 1), Seq::empty()));
                assert(cur@ =~= Seq::<char>::empty());
            } else {
                assert(Seq::<Seq<char>>::empty() + words_from(s@.skip(i + 1), Seq::empty())
                    =~= words_from(s@.skip(i + 1), Seq::empty()));
                assert(cur@ =~= Seq::<char>::empty());
            }
        } else {
            cur.push(c);
        }
        i = i + 1;
    }
    let ghost before = found@.map_values(|v: Vec<char>| v@);
    if cur.len() > 0 {
        let ghost w = cur@;
        found.push(cur);
        assert(found@.map_values(|v: Vec<char>| v@) =~= before.push(w));
        assert(words(s@) =~= before + seq![w]);
    } else {
        assert(words(s@) =~= before + Seq::<Seq<char>>::empty());
        assert(words(s@) =~= before);
    }
    assert(found@.map_values(|v: Vec<char>| v@) =~= words(s@));
    if found.len() > 1 {
        let mut w: Vec<char> = Vec::new();
        push_all(&mut w, &found[1]);
        Some(w)
    } else {
        None
    }
}

/// The request target of the HTTP request text.
pub fn request_target(request: &str) -> (r: Option<String>)
    ensures
        opt_view(r) == request_target_spec(request@),
{
    let chars = chars_of(request);
    match first_line_exec(&chars) {
        Some(line) => match second_word(&line) {
            Some(w) => Some(string_of(&w)),
            None => None,
        },
        None => None,
    }
}

/// The authorisation code of a callback, or why there is none: the `state` parameter must be
/// the one sent, an `error` parameter gives its description (or itself), and `code` must be
/// present. A parameter given twice counts by its last value.
pub open spec fn parse_callback_spec(
    query: Seq<(Seq<char>, Seq<char>)>,
    expected_state: Seq<char>,
) -> Result<Seq<char>, Seq<char>> {
    if last_value(query, "state"@) != Some(expected_state) {
        Err("OAuth state check failed"@)
    } else if last_value(query, "error"@) is Some {
        match last_value(query, "error_description"@) {
            Some(d) => Err(d),
            None => Err(last_value(query, "error"@)->0),
        }
    } else {
        match last_value(query, "code"@) {
            Some(c) => Ok(c),
            None => Err("OAuth callback did not include an authorization code"@),
        }
    }
}

fn last_param(query: &Vec<(String, String)>, key: &str) -> (r: Option<String>)
    ensures
        opt_view(r) == last_value(pairs_view(query@), key@),
{
    let ghost s = pairs_view(query@);
    let k = chars_of(key);
    let mut i: usize = query.len();
    assert(s.take(i as int) =~= s);
    while i > 0
        invariant
            i <= query.len(),
            s == pairs_view(query@),
            k@ == key@,
            last_value(s, key@) == last_value(s.take(i as int), key@),
        decreases i,
    {
        assert(s.take(i as int).drop_last() =~= s.take(i - 1));
        if crate::text::chars_eq(&chars_of(query[i - 1].0.as_str()), &k) {
            return Some(query[i - 1].1.clone());
        }
        i = i - 1;
    }
    None
}

pub fn parse_callback(url: &UrlParts, expected_state: &str) -> (r: Result<String, String>)
    ensures
        result_view(r) == parse_callback_spec(url.parts().3, expected_state@),
{
    let state = last_param(&url.query, "state");
    let state_ok = match &state {
        Some(s) => eq_str(&chars_of(s.as_str()), expected_state),
        None => false,
    };
    if !state_ok {
        return Err(from_str("OAuth state check failed"));
    }
    match last_param(&url.query, "error") {
        Some(error) => {
            match last_param(&url.query, "error_description") {
                Some(d) => Err(d),
                None => Err(error),
            }
        },
        None => match last_param(&url.query, "code") {
            Some(c) => Ok(c),
            None => Err(from_str("OAuth callback did not include an authorization code")),
        },
    }
}

/// The code that the callback request text carries, or why it carries none.
pub open spec fn callback_code_spec(request: Seq<char>, expected_state: Seq<char>) -> Result<
    Seq<char>,
    Seq<char>,
> {
    match request_target_spec(request) {
        None => Err("Bad OAuth callback request"@),
        Some(target) => if !starts_with_spec(target, "/callback?"@) {
            Err("Unknown OAuth callback path"@)
        } else {
            match url_parse_result("http://127.0.0.1"@ + target) {
                None => Err("Invalid OAuth callback URL"@),
                Some(parts) => parse_callback_spec(parts.3, expected_state),
            }
        },
    }
}

/// Reads the authorisation code from the text of the callback request.
pub fn callback_code(request: &str, expected_state: &str) -> (r: Result<String, String>)
    ensures
        result_view(r) == callback_code_spec(request@, expected_state@),
{
    let target = match request_target(request) {
        Some(t) => t,
        None => return Err(from_str("Bad OAuth callback request")),
    };
    let tchars = chars_of(target.as_str());
    if !starts_with(&tchars, "/callback?") {
        return Err(from_str("Unknown OAuth callback path"));
    }
    let mut full = chars_of("http://127.0.0.1");
    push_all(&mut full, &tchars);
    match parse_url(string_of(&full).as_str()) {
        Some(parts) => parse_callback(&parts, expected_state),
        None => Err(from_str("Invalid OAuth callback URL")),
    }
}

/// `s` with `&`, `<` and `>` written as HTML entities.
pub open spec fn escape_html(s: Seq<char>) -> Seq<char>
    decreases s.len(),
{
    if s.len() == 0 {
        Seq::empty()
    } else {
        let c = s.last();
        escape_html(s.drop_last()) + if c == '&' {
            "&amp;"@
        } else if c == '<' {
            "&lt;"@
        } else if c == '>' {
            "&gt;"@
        } else {
            seq![c]
        }
    }
}

/// The page shown in the browser after sign-in.
pub open spec fn callback_page(body: Seq<char>) -> Seq<char> {
    "<!DOCTYPE html><html><head><meta charset=\"utf-8\"><title>Happy Wakey</title></head><body><p>"@
        + escape_html(body) + "</p><script>window.close();</script></body></html>"@
}

/// The HTTP response that carries the page, with its length in bytes.
pub open spec fn callback_response_spec(status: Seq<char>, body: Seq<char>) -> Seq<char> {
    let html = callback_page(body);
    "HTTP/1.1 "@ + status + "\r\nContent-Type: text/html; charset=utf-8\r\nContent-Length: "@
        + decimal(utf8_len(html)) + "\r\nConnection: close\r\n\r\n"@ + html
}

/// The HTTP response to the browser's callback request.
pub fn callback_response(status: &str, body: &str) -> (r: String)
    ensures
        r@ == callback_response_spec(status@, body@),
{
    let b = chars_of(body);
    let mut escaped: Vec<char> = Vec::new();
    let mut i: usize = 0;
    while i < b.len()
        invariant
            i <= b.len(),
            escaped@ == escape_html(b@.take(i as int)),
        decreases b.len() - i,
    {
        let c = b[i];
        assert(b@.take(i + 1).drop_last() =~= b@.take(i as int));
        if c == '&' {
            push_str(&mut escaped, "&amp;");
        } else if c == '<' {
            push_str(&mut escaped, "&lt;");
        } else if c == '>' {
            push_str(&mut escaped, "&gt;");
        } else {
            escaped.push(c);
        }
        i = i + 1;
    }
    assert(b@.take(b.len() as int) =~= b@);
    let mut html: Vec<char> = chars_of(
        "<!DOCTYPE html><html><head><meta charset=\"utf-8\"><title>Happy Wakey</title></head><body><p>",
    );
    push_all(&mut html, &escaped);
    push_str(&mut html, "</p><script>window.close();</script></body></html>");
    let length = utf8_length(&html);
    let mut out: Vec<char> = chars_of("HTTP/1.1 ");
    push_str(&mut out, status);
    push_str(&mut out, "\r\nContent-Type: text/html; charset=utf-8\r\nContent-Length: ");
    proof {
        crate::text::lemma_utf8_len(html@);
    }
    crate::text::push_decimal_u128(&mut out, length);
    push_str(&mut out, "\r\nConnection: close\r\n\r\n");
    push_all(&mut out, &html);
    assert(out@ =~= callback_response_spec(status@, body@));
    string_of(&out)
}

/// The page text for the outcome of the callback.
pub open spec fn callback_body(accepted: bool) -> Seq<char> {
    if accepted {
        "Authentication complete. You can close this window."@
    } else {
        "Authentication failed. You can close this window and try again."@
    }
}

/// The browser's answer once the callback was read: `200 OK` with a page that says whether
/// sign-in went on.
pub fn callback_reply(accepted: bool) -> (r: String)
    ensures
        r@ == callback_response_spec("200 OK"@, callback_body(accepted)),
{
    if accepted {
        callback_response("200 OK", "Authentication complete. You can close this window.")
    } else {
        callback_response(
            "200 OK",
            "Authentication failed. You can close this window and try again.",
        )
    }
}

// ---------------------------------------------------------------------------
// Sessions
// ---------------------------------------------------------------------------

/// The token endpoint under the Supabase address.
pub fn token_url(supabase_url: &str) -> (r: String)
    ensures
        r@ == supabase_url@ + "/auth/v1/token"@,
{
    let mut u = chars_of(supabase_url);
    push_str(&mut u, "/auth/v1/token");
    string_of(&u)
}

/// The form that trades an authorisation code for a session.
pub fn code_exchange_form(code_verifier: &str, code: &str, redirect_uri: &str) -> (r: Vec<
    (String, String),
>)
    ensures
        pairs_view(r@) == seq![
            ("grant_type"@, "authorization_code"@),
            ("code"@, code@),
            ("redirect_uri"@, redirect_uri@),
            ("code_verifier"@, code_verifier@),
        ],
{
    let mut form: Vec<(String, String)> = Vec::new();
    form.push((from_str("grant_type"), from_str("authorization_code")));
    form.push((from_str("code"), from_str(code)));
    form.push((from_str("redirect_uri"), from_str(redirect_uri)));
    form.push((from_str("code_verifier"), from_str(code_verifier)));
    assert(pairs_view(form@) =~= seq![
        ("grant_type"@, "authorization_code"@),
        ("code"@, code@),
        ("redirect_uri"@, redirect_uri@),
        ("code_verifier"@, code_verifier@),
    ]);
    form
}

/// The form that renews a session with its refresh token.
pub fn refresh_form(refresh_token: &str) -> (r: Vec<(String, String)>)
    ensures
        pairs_view(r@) == seq![("grant_type"@, "refresh_token"@), ("refresh_token"@, refresh_token@)],
{
    let mut form: Vec<(String, String)> = Vec::new();
    form.push((from_str("grant_type"), from_str("refresh_token")));
    form.push((from_str("refresh_token"), from_str(refresh_token)));
    assert(pairs_view(form@) =~= seq![
        ("grant_type"@, "refresh_token"@),
        ("refresh_token"@, refresh_token@),
    ]);
    form
}

/// The session a token response gives at `now`: it expires `expires_in` seconds later.
pub fn session_from_token(resp: AuthTokenResponse, now_unix: i64) -> (r: SupabaseSession)
    requires
        i64::MIN <= now_unix + resp.expires_in <= i64::MAX,
    ensures
        r.access_token == resp.access_token,
        r.refresh_token == resp.refresh_token,
        r.expires_at == now_unix + resp.expires_in,
        r.user_id == resp.user.id,
        r.email == resp.user.email,
{
    SupabaseSession {
        access_token: resp.access_token,
        refresh_token: resp.refresh_token,
        expires_at: now_unix + resp.expires_in,
        user_id: resp.user.id,
        email: resp.user.email,
    }
}

} // verus!
