//! The local configuration: its shape, defaults and sanitising rules.
use vstd::prelude::*;

use crate::clock::{is_later, later, parse_rfc3339, rfc3339_instant, utc_rfc3339_text};
use crate::text::{
    at_most, chars_of, clean_text, clean_text_spec, contains, contains_spec, eq_str, from_str,
    is_ascii_alnum, is_ascii_alnum_spec, lemma_at_most_extend, push_all, string_of, to_uppercase,
    trim, trim_spec, upper_case, utf8_len, utf8_length, all_ascii, ascii_upper, lemma_trim_keeps,
    lemma_trim_unchanged,
};
use crate::weburl::{http_url, http_url_spec};

verus! {

pub const ONBOARDING_STEP_WELCOME: &'static str = "welcome";

pub const ONBOARDING_STEP_ACCOUNT: &'static str = "account";

pub const ONBOARDING_STEP_BACKUP: &'static str = "backup";

pub const ONBOARDING_STEP_ESSENTIALS: &'static str = "essentials";

pub const ONBOARDING_STEP_READY: &'static str = "ready";

pub const ONBOARDING_STEP_COMPLETE: &'static str = "complete";

/// The version that sanitised configurations carry.
pub const APP_VERSION: &'static str = "0.1.0";

/// When and whether calendar reminders are delivered.
pub struct ReminderSettings {
    pub enabled: bool,
    pub cloud_email_enabled: bool,
    pub offsets_minutes: Vec<u16>,
}

impl Default for ReminderSettings {
    /// Reminders off, with no offsets.
    fn default() -> (r: Self)
        ensures
            !r.enabled,
            !r.cloud_email_enabled,
            r.offsets_minutes@ == Seq::<u16>::empty(),
    {
        ReminderSettings { enabled: false, cloud_email_enabled: false, offsets_minutes: Vec::new() }
    }
}

pub open spec fn opt_view(o: Option<String>) -> Option<Seq<char>> {
    match o {
        Some(s) => Some(s@),
        None => None,
    }
}

pub open spec fn views<T: View>(s: Seq<T>) -> Seq<T::V> {
    s.map_values(|x: T| x@)
}

/// A signed-in Supabase session.
pub struct SupabaseSession {
    pub access_token: String,
    pub refresh_token: String,
    pub expires_at: i64,
    pub user_id: String,
    pub email: Option<String>,
}

/// Access token, refresh token, expiry, user id, e-mail.
pub type SessionView = (Seq<char>, Seq<char>, i64, Seq<char>, Option<Seq<char>>);

impl View for SupabaseSession {
    type V = SessionView;

    open spec fn view(&self) -> SessionView {
        (
            self.access_token@,
            self.refresh_token@,
            self.expires_at,
            self.user_id@,
            opt_view(self.email),
        )
    }
}

/// A calendar account linked through OAuth.
pub struct CalendarProvider {
    pub provider: String,
    pub email: String,
    pub access_token: String,
    pub refresh_token: String,
    pub expires_at: i64,
}

/// Provider, e-mail, access token, refresh token, expiry.
pub type ProviderView = (Seq<char>, Seq<char>, Seq<char>, Seq<char>, i64);

impl View for CalendarProvider {
    type V = ProviderView;

    open spec fn view(&self) -> ProviderView {
        (self.provider@, self.email@, self.access_token@, self.refresh_token@, self.expires_at)
    }
}

/// A place to show the weather of. The coordinates are held as the bit patterns of IEEE 754
/// doubles (`f64::to_bits`), so that they are carried exactly.
pub struct WeatherLocation {
    pub name: String,
    pub lat_bits: u64,
    pub lon_bits: u64,
}

pub type LocationView = (Seq<char>, u64, u64);

impl View for WeatherLocation {
    type V = LocationView;

    open spec fn view(&self) -> LocationView {
        (self.name@, self.lat_bits, self.lon_bits)
    }
}

/// A saved browser page.
pub struct Bookmark {
    pub id: String,
    pub title: String,
    pub url: String,
}

pub type BookmarkView = (Seq<char>, Seq<char>, Seq<char>);

impl View for Bookmark {
    type V = BookmarkView;

    open spec fn view(&self) -> BookmarkView {
        (self.id@, self.title@, self.url@)
    }
}

/// Progress through the first-run steps.
pub struct OnboardingState {
    pub completed: bool,
    pub current_step: String,
    pub step_index: u8,
    pub updated_at: Option<String>,
}

/// Completed, current step, step index, time of the last change.
pub type OnboardingView = (bool, Seq<char>, u8, Option<Seq<char>>);

impl View for OnboardingState {
    type V = OnboardingView;

    open spec fn view(&self) -> OnboardingView {
        (self.completed, self.current_step@, self.step_index, opt_view(self.updated_at))
    }
}

/// The whole local configuration.
pub struct Config {
    pub version: String,
    pub user_id: String,
    pub supabase_session: Option<SupabaseSession>,
    pub calendar_providers: Vec<CalendarProvider>,
    pub weather_locations: Vec<WeatherLocation>,
    pub stock_symbols: Vec<String>,
    pub news_keywords: Vec<String>,
    pub browser_bookmarks: Vec<Bookmark>,
    pub git_repo_path: Option<String>,
    pub supabase_sync_enabled: bool,
    pub onboarding: OnboardingState,
}

/// A configuration as plain values.
pub ghost struct ConfigView {
    pub version: Seq<char>,
    pub user_id: Seq<char>,
    pub supabase_session: Option<SessionView>,
    pub calendar_providers: Seq<ProviderView>,
    pub weather_locations: Seq<LocationView>,
    pub stock_symbols: Seq<Seq<char>>,
    pub news_keywords: Seq<Seq<char>>,
    pub browser_bookmarks: Seq<BookmarkView>,
    pub git_repo_path: Option<Seq<char>>,
    pub supabase_sync_enabled: bool,
    pub onboarding: OnboardingView,
}

impl View for Config {
    type V = ConfigView;

    open spec fn view(&self) -> ConfigView {
        ConfigView {
            version: self.version@,
            user_id: self.user_id@,
            supabase_session: match self.supabase_session {
                Some(s) => Some(s@),
                None => None,
            },
            calendar_providers: views(self.calendar_providers@),
            weather_locations: views(self.weather_locations@),
            stock_symbols: views(self.stock_symbols@),
            news_keywords: views(self.news_keywords@),
            browser_bookmarks: views(self.browser_bookmarks@),
            git_repo_path: opt_view(self.git_repo_path),
            supabase_sync_enabled: self.supabase_sync_enabled,
            onboarding: self.onboarding@,
        }
    }
}

// ---------------------------------------------------------------------------
// Defaults
// ---------------------------------------------------------------------------

impl Default for SupabaseSession {
    fn default() -> (r: Self)
        ensures
            r@ == (Seq::<char>::empty(), Seq::<char>::empty(), 0i64, Seq::<char>::empty(), None::<
                Seq<char>,
            >),
    {
        SupabaseSession {
            access_token: String::new(),
            refresh_token: String::new(),
            expires_at: 0,
            user_id: String::new(),
            email: None,
        }
    }
}

impl Default for CalendarProvider {
    fn default() -> (r: Self)
        ensures
            r@ == (
                Seq::<char>::empty(),
                Seq::<char>::empty(),
                Seq::<char>::empty(),
                Seq::<char>::empty(),
                0i64,
            ),
    {
        CalendarProvider {
            provider: String::new(),
            email: String::new(),
            access_token: String::new(),
            refresh_token: String::new(),
            expires_at: 0,
        }
    }
}

impl Default for OnboardingState {
    fn default() -> (r: Self)
        ensures
            r@ == (false, "welcome"@, 0u8, None::<Seq<char>>),
    {
        OnboardingState {
            completed: false,
            current_step: from_str(ONBOARDING_STEP_WELCOME),
            step_index: 0,
            updated_at: None,
        }
    }
}

/// The symbols watched when nothing else is configured.
pub open spec fn default_stock_symbols() -> Seq<Seq<char>> {
    seq![
        "AAPL"@, "GOOGL"@, "MSFT"@, "AMZN"@, "NVDA"@, "META"@, "TSLA"@, "SPY"@, "QQQ"@, "GLD"@,
        "BTC-USD"@, "ETH-USD"@, "JPM"@, "V"@, "KO"@, "DIS"@, "NFLX"@, "BA"@, "XOM"@, "PG"@,
    ]
}

/// The news keywords used when nothing else is configured.
pub open spec fn default_news_keywords() -> Seq<Seq<char>> {
    seq!["technology"@, "AI"@, "markets"@]
}

fn strings_from(items: &[&str]) -> (r: Vec<String>)
    ensures
        views(r@) == items@.map_values(|s: &str| s@),
{
    let mut out: Vec<String> = Vec::new();
    let mut i: usize = 0;
    while i < items.len()
        invariant
            i <= items.len(),
            views(out@) == items@.map_values(|s: &str| s@).take(i as int),
        decreases items.len() - i,
    {
        let item = from_str(items[i]);
        let ghost prev = out@;
        out.push(item);
        assert(out@ == prev.push(item));
        assert(views(out@) =~= views(prev).push(item@));
        i = i + 1;
        assert(views(out@) =~= items@.map_values(|s: &str| s@).take(i as int));
    }
    assert(items@.map_values(|s: &str| s@).take(items.len() as int) =~= items@.map_values(
        |s: &str| s@,
    ));
    out
}

/// The default configuration: the app's version, no account, no providers or locations, the
/// default symbols and keywords, sync on, onboarding at its start.
pub open spec fn default_config_view() -> ConfigView {
    ConfigView {
        version: APP_VERSION@,
        user_id: Seq::<char>::empty(),
        supabase_session: None,
        calendar_providers: Seq::empty(),
        weather_locations: Seq::empty(),
        stock_symbols: default_stock_symbols(),
        news_keywords: default_news_keywords(),
        browser_bookmarks: Seq::empty(),
        git_repo_path: None,
        supabase_sync_enabled: true,
        onboarding: (false, "welcome"@, 0u8, None::<Seq<char>>),
    }
}

impl Default for Config {
    fn default() -> (r: Self)
        ensures
            r@ == default_config_view(),
    {
        let symbols: [&str; 20] = [
            "AAPL",
            "GOOGL",
            "MSFT",
            "AMZN",
            "NVDA",
            "META",
            "TSLA",
            "SPY",
            "QQQ",
            "GLD",
            "BTC-USD",
            "ETH-USD",
            "JPM",
            "V",
            "KO",
            "DIS",
            "NFLX",
            "BA",
            "XOM",
            "PG",
        ];
        let keywords: [&str; 3] = ["technology", "AI", "markets"];
        let stock_symbols = strings_from(&symbols);
        let news_keywords = strings_from(&keywords);
        assert(symbols@.map_values(|s: &str| s@) =~= default_stock_symbols());
        assert(keywords@.map_values(|s: &str| s@) =~= default_news_keywords());
        let r = Config {
            version: from_str(APP_VERSION),
            user_id: String::new(),
            supabase_session: None,
            calendar_providers: Vec::new(),
            weather_locations: Vec::new(),
            stock_symbols,
            news_keywords,
            browser_bookmarks: Vec::new(),
            git_repo_path: None,
            supabase_sync_enabled: true,
            onboarding: OnboardingState::default(),
        };
        assert(views(r.calendar_providers@) =~= Seq::<ProviderView>::empty());
        assert(views(r.weather_locations@) =~= Seq::<LocationView>::empty());
        assert(views(r.browser_bookmarks@) =~= Seq::<BookmarkView>::empty());
        r
    }
}


// ---------------------------------------------------------------------------
// Onboarding
// ---------------------------------------------------------------------------

/// The step a state is shown at: `complete` once completed, else the trimmed step when it
/// is one of `account`, `backup`, `essentials`, `ready`, else `welcome`.
pub open spec fn normalize_step_spec(step: Seq<char>, completed: bool) -> Seq<char> {
    if completed {
        "complete"@
    } else {
        let t = trim_spec(step);
        if t == "account"@ || t == "backup"@ || t == "essentials"@ || t == "ready"@ {
            t
        } else {
            "welcome"@
        }
    }
}

/// The timestamp, kept only when it parses as RFC 3339.
pub open spec fn valid_timestamp(ts: Option<Seq<char>>) -> Option<Seq<char>> {
    match ts {
        Some(t) => if rfc3339_instant(t) is Some {
            Some(t)
        } else {
            None
        },
        None => None,
    }
}

/// A sanitised onboarding state: step index at most 4, a known step, a parseable timestamp.
pub open spec fn sanitize_onboarding_spec(o: OnboardingView) -> OnboardingView {
    (o.0, normalize_step_spec(o.1, o.0), if o.2 <= 4 { o.2 } else { 4u8 }, valid_timestamp(o.3))
}

fn normalize_onboarding_step(step: &str, completed: bool) -> (r: String)
    ensures
        r@ == normalize_step_spec(step@, completed),
{
    if completed {
        return from_str(ONBOARDING_STEP_COMPLETE);
    }
    let t = trim(&chars_of(step));
    if eq_str(&t, ONBOARDING_STEP_ACCOUNT) {
        from_str(ONBOARDING_STEP_ACCOUNT)
    } else if eq_str(&t, ONBOARDING_STEP_BACKUP) {
        from_str(ONBOARDING_STEP_BACKUP)
    } else if eq_str(&t, ONBOARDING_STEP_ESSENTIALS) {
        from_str(ONBOARDING_STEP_ESSENTIALS)
    } else if eq_str(&t, ONBOARDING_STEP_READY) {
        from_str(ONBOARDING_STEP_READY)
    } else {
        from_str(ONBOARDING_STEP_WELCOME)
    }
}

fn copy_opt_string(o: &Option<String>) -> (r: Option<String>)
    ensures
        r == *o,
{
    match o {
        Some(s) => Some(s.clone()),
        None => None,
    }
}

impl OnboardingState {
    /// A copy of this state.
    pub fn duplicate(&self) -> (r: Self)
        ensures
            r == *self,
    {
        OnboardingState {
            completed: self.completed,
            current_step: self.current_step.clone(),
            step_index: self.step_index,
            updated_at: copy_opt_string(&self.updated_at),
        }
    }
}

/// Caps the step index at 4, normalises the step, and drops a timestamp that does not parse.
pub fn sanitize_onboarding_state(state: OnboardingState) -> (r: OnboardingState)
    ensures
        r@ == sanitize_onboarding_spec(state@),
{
    let step_index = if state.step_index <= 4 {
        state.step_index
    } else {
        4
    };
    let current_step = normalize_onboarding_step(state.current_step.as_str(), state.completed);
    let updated_at = match state.updated_at {
        Some(timestamp) => {
            if parse_rfc3339(timestamp.as_str()).is_some() {
                Some(timestamp)
            } else {
                None
            }
        },
        None => None,
    };
    OnboardingState { completed: state.completed, current_step, step_index, updated_at }
}

/// The instant of an optional timestamp.
pub open spec fn instant_of(ts: Option<Seq<char>>) -> Option<(i64, u32)> {
    match ts {
        Some(t) => rfc3339_instant(t),
        None => None,
    }
}

/// Whether the remote state carries the newer valid time: both have one and the remote's
/// is later, or only the remote has one.
pub open spec fn remote_is_newer(local: OnboardingView, remote: OnboardingView) -> bool {
    match (instant_of(local.3), instant_of(remote.3)) {
        (Some(l), Some(r)) => later(r, l),
        (None, Some(_)) => true,
        _ => false,
    }
}

/// Whether the remote onboarding state wins over the local one: completion wins over an
/// incomplete state, on either side; between two states equally complete, the remote wins
/// when it carries the newer valid time.
pub open spec fn remote_onboarding_wins(local: OnboardingView, remote: OnboardingView) -> bool {
    if remote.0 != local.0 {
        remote.0
    } else {
        remote_is_newer(local, remote)
    }
}

/// Reconciles the local and the remote onboarding state.
pub fn merge_onboarding(local: &OnboardingState, remote: &OnboardingState) -> (r: OnboardingState)
    ensures
        r@ == sanitize_onboarding_spec(
            if remote_onboarding_wins(local@, remote@) {
                remote@
            } else {
                local@
            },
        ),
{
    if remote.completed && !local.completed {
        return sanitize_onboarding_state(remote.duplicate());
    }
    if local.completed && !remote.completed {
        return sanitize_onboarding_state(local.duplicate());
    }
    let local_time = match &local.updated_at {
        Some(t) => parse_rfc3339(t.as_str()),
        None => None,
    };
    let remote_time = match &remote.updated_at {
        Some(t) => parse_rfc3339(t.as_str()),
        None => None,
    };
    let remote_wins = match (&local_time, &remote_time) {
        (Some(l), Some(r)) => is_later(r, l),
        (None, Some(_)) => true,
        _ => false,
    };
    if remote_wins {
        sanitize_onboarding_state(remote.duplicate())
    } else {
        sanitize_onboarding_state(local.duplicate())
    }
}

// ---------------------------------------------------------------------------
// Sanitising
// ---------------------------------------------------------------------------

/// The results of `f` that are `Some`, in order.
pub open spec fn filter_map<A, B>(s: Seq<A>, f: spec_fn(A) -> Option<B>) -> Seq<B>
    decreases s.len(),
{
    if s.len() == 0 {
        Seq::empty()
    } else {
        let r = filter_map(s.drop_last(), f);
        match f(s.last()) {
            Some(b) => r.push(b),
            None => r,
        }
    }
}

proof fn lemma_filter_map_step<A, B>(s: Seq<A>, f: spec_fn(A) -> Option<B>, i: int, cap: int)
    requires
        0 <= i < s.len(),
        0 <= cap,
    ensures
        ({
            let before = filter_map(s.take(i), f);
            let after = filter_map(s.take(i + 1), f);
            &&& after == (match f(s[i]) {
                Some(b) => before.push(b),
                None => before,
            })
            &&& before.len() >= cap ==> at_most(after, cap) == at_most(before, cap)
            &&& before.len() < cap ==> at_most(after, cap) == after
        }),
{
    assert(s.take(i + 1).drop_last() =~= s.take(i));
    let before = filter_map(s.take(i), f);
    let after = filter_map(s.take(i + 1), f);
    lemma_at_most_extend(before, after, cap);
}

/// The IEEE 754 bit pattern of 90.0.
pub const LATITUDE_LIMIT_BITS: u64 = 0x4056_8000_0000_0000;

/// The IEEE 754 bit pattern of 180.0.
pub const LONGITUDE_LIMIT_BITS: u64 = 0x4066_8000_0000_0000;

/// Whether the double with bit pattern `bits` is a number of magnitude at most that of the
/// double `limit` (a positive finite value). Cleared of its sign bit, the pattern of a double
/// orders as its magnitude does, and infinities and NaNs lie above every finite value; so
/// this holds exactly when `-limit <= x <= limit`.
pub open spec fn coordinate_within(bits: u64, limit: u64) -> bool {
    (bits & 0x7fff_ffff_ffff_ffffu64) <= limit
}

pub fn is_coordinate_within(bits: u64, limit: u64) -> (r: bool)
    ensures
        r == coordinate_within(bits, limit),
{
    (bits & 0x7fff_ffff_ffff_ffffu64) <= limit
}

pub open spec fn sanitize_location_spec(l: LocationView) -> Option<LocationView> {
    let name = clean_text_spec(l.0, 80);
    if name.len() == 0 || !coordinate_within(l.1, LATITUDE_LIMIT_BITS) || !coordinate_within(
        l.2,
        LONGITUDE_LIMIT_BITS,
    ) {
        None
    } else {
        Some((name, l.1, l.2))
    }
}

fn sanitize_weather_location(location: &WeatherLocation) -> (r: Option<WeatherLocation>)
    ensures
        match r {
            Some(x) => sanitize_location_spec(location@) == Some(x@),
            None => sanitize_location_spec(location@) is None,
        },
{
    let name = clean_text(location.name.as_str(), 80);
    if name.as_str().is_empty() || !is_coordinate_within(location.lat_bits, LATITUDE_LIMIT_BITS)
        || !is_coordinate_within(location.lon_bits, LONGITUDE_LIMIT_BITS) {
        return None;
    }
    Some(WeatherLocation { name, lat_bits: location.lat_bits, lon_bits: location.lon_bits })
}

/// A character allowed in a ticker symbol.
pub open spec fn symbol_char(c: char) -> bool {
    is_ascii_alnum_spec(c) || c == '.' || c == '-' || c == '_' || c == '='
}

/// The trimmed, upper-cased symbol, when it is non-empty, at most 24 bytes long and made only
/// of ASCII letters, digits, `.`, `-`, `_` and `=`.
pub open spec fn sanitize_symbol_spec(s: Seq<char>) -> Option<Seq<char>> {
    let u = upper_case(trim_spec(s));
    if u.len() == 0 || utf8_len(u) > 24 || !(forall|i: int|
        0 <= i < u.len() ==> symbol_char(#[trigger] u[i])) {
        None
    } else {
        Some(u)
    }
}

fn all_symbol_chars(v: &Vec<char>) -> (r: bool)
    ensures
        r == (forall|i: int| 0 <= i < v@.len() ==> symbol_char(#[trigger] v@[i])),
{
    let mut i: usize = 0;
    while i < v.len()
        invariant
            i <= v.len(),
            forall|k: int| 0 <= k < i ==> symbol_char(#[trigger] v@[k]),
        decreases v.len() - i,
    {
        let c = v[i];
        if !(is_ascii_alnum(c) || c == '.' || c == '-' || c == '_' || c == '=') {
            assert(!symbol_char(v@[i as int]));
            return false;
        }
        i = i + 1;
    }
    true
}

pub fn sanitize_symbol(symbol: &str) -> (r: Option<String>)
    ensures
        opt_view(r) == sanitize_symbol_spec(symbol@),
{
    let trimmed = string_of(&trim(&chars_of(symbol)));
    let upper = to_uppercase(trimmed.as_str());
    let chars = chars_of(upper.as_str());
    if chars.len() == 0 || utf8_length(&chars) > 24 || !all_symbol_chars(&chars) {
        return None;
    }
    Some(upper)
}

pub open spec fn sanitize_keyword_spec(k: Seq<char>) -> Option<Seq<char>> {
    let c = clean_text_spec(k, 64);
    if c.len() == 0 {
        None
    } else {
        Some(c)
    }
}

/// A bookmark address: trimmed, at most 2048 bytes, `https://` put in front when it names no
/// scheme, and kept only when it parses as an `http(s)` URL with a host.
pub open spec fn normalize_http_url_spec(raw: Seq<char>) -> Option<Seq<char>> {
    let t = trim_spec(raw);
    if t.len() == 0 || utf8_len(t) > 2048 {
        None
    } else {
        let input = if contains_spec(t, "://"@) {
            t
        } else {
            "https://"@ + t
        };
        http_url_spec(input)
    }
}

fn normalize_http_url(raw: &str) -> (r: Option<String>)
    ensures
        opt_view(r) == normalize_http_url_spec(raw@),
        r matches Some(u) ==> u@.len() > 0 && http_url_spec(u@) == Some(u@),
{
    let t = trim(&chars_of(raw));
    if t.len() == 0 || utf8_length(&t) > 2048 {
        return None;
    }
    let input = if contains(&t, &chars_of("://")) {
        t
    } else {
        let mut v = chars_of("https://");
        push_all(&mut v, &t);
        v
    };
    let r = http_url(string_of(&input).as_str());
    r
}

pub open spec fn sanitize_bookmark_spec(b: BookmarkView) -> Option<BookmarkView> {
    match normalize_http_url_spec(b.2) {
        Some(url) => {
            let title = clean_text_spec(b.1, 120);
            Some(
                (
                    clean_text_spec(b.0, 64),
                    if title.len() == 0 {
                        url
                    } else {
                        title
                    },
                    url,
                ),
            )
        },
        None => None,
    }
}

/// A bookmark fit to keep: a non-empty title and a link that parses as itself, an `http(s)`
/// URL with a host.
pub open spec fn usable_bookmark(b: BookmarkView) -> bool {
    b.1.len() > 0 && http_url_spec(b.2) == Some(b.2)
}

fn sanitize_bookmark(bookmark: &Bookmark) -> (r: Option<Bookmark>)
    ensures
        r matches Some(x) ==> usable_bookmark(x@),
        match r {
            Some(x) => sanitize_bookmark_spec(bookmark@) == Some(x@),
            None => sanitize_bookmark_spec(bookmark@) is None,
        },
{
    let url = match normalize_http_url(bookmark.url.as_str()) {
        Some(u) => u,
        None => return None,
    };
    let title = clean_text(bookmark.title.as_str(), 120);
    let title = if title.as_str().is_empty() {
        url.clone()
    } else {
        title
    };
    Some(Bookmark { id: clean_text(bookmark.id.as_str(), 64), title, url })
}

pub open spec fn sanitize_provider_spec(p: ProviderView) -> ProviderView {
    (clean_text_spec(p.0, 64), clean_text_spec(p.1, 254), p.2, p.3, p.4)
}

fn sanitize_calendar_provider(provider: &CalendarProvider) -> (r: CalendarProvider)
    ensures
        r@ == sanitize_provider_spec(provider@),
{
    CalendarProvider {
        provider: clean_text(provider.provider.as_str(), 64),
        email: clean_text(provider.email.as_str(), 254),
        access_token: provider.access_token.clone(),
        refresh_token: provider.refresh_token.clone(),
        expires_at: provider.expires_at,
    }
}

pub open spec fn sanitize_session_spec(s: SessionView) -> SessionView {
    (
        s.0,
        s.1,
        s.2,
        clean_text_spec(s.3, 128),
        match s.4 {
            Some(e) => Some(clean_text_spec(e, 254)),
            None => None,
        },
    )
}

pub open spec fn sanitize_git_path_spec(p: Option<Seq<char>>) -> Option<Seq<char>> {
    match p {
        Some(path) => {
            let c = clean_text_spec(path, 512);
            if c.len() == 0 {
                None
            } else {
                Some(c)
            }
        },
        None => None,
    }
}

/// The sanitised configuration: this version; cleaned text fields; at most 5 valid weather
/// locations, 20 valid symbols, 20 non-empty keywords and 50 bookmarks with `http(s)` URLs;
/// a sanitised session and onboarding state.
pub open spec fn sanitize_spec(c: ConfigView) -> ConfigView {
    ConfigView {
        version: APP_VERSION@,
        user_id: clean_text_spec(c.user_id, 128),
        supabase_session: match c.supabase_session {
            Some(s) => Some(sanitize_session_spec(s)),
            None => None,
        },
        calendar_providers: c.calendar_providers.map_values(
            |p: ProviderView| sanitize_provider_spec(p),
        ),
        weather_locations: at_most(
            filter_map(c.weather_locations, |l: LocationView| sanitize_location_spec(l)),
            5,
        ),
        stock_symbols: at_most(
            filter_map(c.stock_symbols, |s: Seq<char>| sanitize_symbol_spec(s)),
            20,
        ),
        news_keywords: at_most(
            filter_map(c.news_keywords, |k: Seq<char>| sanitize_keyword_spec(k)),
            20,
        ),
        browser_bookmarks: at_most(
            filter_map(c.browser_bookmarks, |b: BookmarkView| sanitize_bookmark_spec(b)),
            50,
        ),
        git_repo_path: sanitize_git_path_spec(c.git_repo_path),
        supabase_sync_enabled: c.supabase_sync_enabled,
        onboarding: sanitize_onboarding_spec(c.onboarding),
    }
}

fn sanitize_locations(items: &Vec<WeatherLocation>) -> (r: Vec<WeatherLocation>)
    ensures
        views(r@) == at_most(
            filter_map(views(items@), |l: LocationView| sanitize_location_spec(l)),
            5,
        ),
{
    let ghost f = |l: LocationView| sanitize_location_spec(l);
    let mut out: Vec<WeatherLocation> = Vec::new();
    let mut i: usize = 0;
    while i < items.len()
        invariant
            i <= items.len(),
            f == (|l: LocationView| sanitize_location_spec(l)),
            views(out@) == at_most(filter_map(views(items@).take(i as int), f), 5),
        decreases items.len() - i,
    {
        proof {
            lemma_filter_map_step(views(items@), f, i as int, 5);
            assert(views(items@).take(i as int) =~= views(items@.take(i as int)));
        }
        let ghost prev = out@;
        match sanitize_weather_location(&items[i]) {
            Some(x) => {
                if out.len() < 5 {
                    out.push(x);
                    assert(views(out@) =~= views(prev).push(x@));
                }
            },
            None => {},
        }
        i = i + 1;
    }
    assert(views(items@).take(items.len() as int) =~= views(items@));
    out
}

fn sanitize_symbols(items: &Vec<String>) -> (r: Vec<String>)
    ensures
        views(r@) == at_most(filter_map(views(items@), |s: Seq<char>| sanitize_symbol_spec(s)), 20),
{
    let ghost f = |s: Seq<char>| sanitize_symbol_spec(s);
    let mut out: Vec<String> = Vec::new();
    let mut i: usize = 0;
    while i < items.len()
        invariant
            i <= items.len(),
            f == (|s: Seq<char>| sanitize_symbol_spec(s)),
            views(out@) == at_most(filter_map(views(items@).take(i as int), f), 20),
        decreases items.len() - i,
    {
        proof {
            lemma_filter_map_step(views(items@), f, i as int, 20);
        }
        let ghost prev = out@;
        match sanitize_symbol(items[i].as_str()) {
            Some(x) => {
                if out.len() < 20 {
                    out.push(x);
                    assert(views(out@) =~= views(prev).push(x@));
                }
            },
            None => {},
        }
        i = i + 1;
    }
    assert(views(items@).take(items.len() as int) =~= views(items@));
    out
}

fn sanitize_keywords(items: &Vec<String>) -> (r: Vec<String>)
    ensures
        views(r@) == at_most(
            filter_map(views(items@), |k: Seq<char>| sanitize_keyword_spec(k)),
            20,
        ),
{
    let ghost f = |k: Seq<char>| sanitize_keyword_spec(k);
    let mut out: Vec<String> = Vec::new();
    let mut i: usize = 0;
    while i < items.len()
        invariant
            i <= items.len(),
            f == (|k: Seq<char>| sanitize_keyword_spec(k)),
            views(out@) == at_most(filter_map(views(items@).take(i as int), f), 20),
        decreases items.len() - i,
    {
        proof {
            lemma_filter_map_step(views(items@), f, i as int, 20);
        }
        let ghost prev = out@;
        let keyword = clean_text(items[i].as_str(), 64);
        if !keyword.as_str().is_empty() && out.len() < 20 {
            out.push(keyword);
            assert(views(out@) =~= views(prev).push(keyword@));
        }
        i = i + 1;
    }
    assert(views(items@).take(items.len() as int) =~= views(items@));
    out
}

fn sanitize_bookmarks(items: &Vec<Bookmark>) -> (r: Vec<Bookmark>)
    ensures
        views(r@) == at_most(
            filter_map(views(items@), |b: BookmarkView| sanitize_bookmark_spec(b)),
            50,
        ),
        forall|k: int| 0 <= k < r@.len() ==> usable_bookmark((#[trigger] r@[k])@),
{
    let ghost f = |b: BookmarkView| sanitize_bookmark_spec(b);
    let mut out: Vec<Bookmark> = Vec::new();
    let mut i: usize = 0;
    while i < items.len()
        invariant
            i <= items.len(),
            f == (|b: BookmarkView| sanitize_bookmark_spec(b)),
            views(out@) == at_most(filter_map(views(items@).take(i as int), f), 50),
            forall|k: int| 0 <= k < out@.len() ==> usable_bookmark((#[trigger] out@[k])@),
        decreases items.len() - i,
    {
        proof {
            lemma_filter_map_step(views(items@), f, i as int, 50);
        }
        let ghost prev = out@;
        match sanitize_bookmark(&items[i]) {
            Some(x) => {
                if out.len() < 50 {
                    out.push(x);
                    assert(views(out@) =~= views(prev).push(x@));
                }
            },
            None => {},
        }
        i = i + 1;
    }
    assert(views(items@).take(items.len() as int) =~= views(items@));
    out
}

fn sanitize_providers(items: &Vec<CalendarProvider>) -> (r: Vec<CalendarProvider>)
    ensures
        views(r@) == views(items@).map_values(|p: ProviderView| sanitize_provider_spec(p)),
{
    let mut out: Vec<CalendarProvider> = Vec::new();
    let mut i: usize = 0;
    while i < items.len()
        invariant
            i <= items.len(),
            views(out@) == views(items@).map_values(|p: ProviderView| sanitize_provider_spec(p)).take(
                i as int,
            ),
        decreases items.len() - i,
    {
        let x = sanitize_calendar_provider(&items[i]);
        let ghost prev = out@;
        out.push(x);
        assert(views(out@) =~= views(prev).push(x@));
        i = i + 1;
        assert(views(out@) =~= views(items@).map_values(
            |p: ProviderView| sanitize_provider_spec(p),
        ).take(i as int));
    }
    assert(views(items@).map_values(|p: ProviderView| sanitize_provider_spec(p)).take(
        items.len() as int,
    ) =~= views(items@).map_values(|p: ProviderView| sanitize_provider_spec(p)));
    out
}

fn sanitize_session(session: SupabaseSession) -> (r: SupabaseSession)
    ensures
        r@ == sanitize_session_spec(session@),
{
    let email = match &session.email {
        Some(e) => Some(clean_text(e.as_str(), 254)),
        None => None,
    };
    SupabaseSession {
        access_token: session.access_token,
        refresh_token: session.refresh_token,
        expires_at: session.expires_at,
        user_id: clean_text(session.user_id.as_str(), 128),
        email,
    }
}

/// Brings a configuration within the limits and shapes that the application relies on.
pub fn sanitize(config: Config) -> (r: Config)
    ensures
        r@ == sanitize_spec(config@),
        forall|k: int|
            0 <= k < r.browser_bookmarks@.len() ==> usable_bookmark(
                (#[trigger] r.browser_bookmarks@[k])@,
            ),
{
    sanitized_copy(&config)
}

fn copy_session(session: &Option<SupabaseSession>) -> (r: Option<SupabaseSession>)
    ensures
        r == *session,
{
    match session {
        Some(s) => Some(
            SupabaseSession {
                access_token: s.access_token.clone(),
                refresh_token: s.refresh_token.clone(),
                expires_at: s.expires_at,
                user_id: s.user_id.clone(),
                email: copy_opt_string(&s.email),
            },
        ),
        None => None,
    }
}

fn sanitized_copy(config: &Config) -> (r: Config)
    ensures
        r@ == sanitize_spec(config@),
        forall|k: int|
            0 <= k < r.browser_bookmarks@.len() ==> usable_bookmark(
                (#[trigger] r.browser_bookmarks@[k])@,
            ),
{
    let git_repo_path = match &config.git_repo_path {
        Some(path) => {
            let p = clean_text(path.as_str(), 512);
            if p.as_str().is_empty() {
                None
            } else {
                Some(p)
            }
        },
        None => None,
    };
    let r = Config {
        version: from_str(APP_VERSION),
        user_id: clean_text(config.user_id.as_str(), 128),
        weather_locations: sanitize_locations(&config.weather_locations),
        stock_symbols: sanitize_symbols(&config.stock_symbols),
        news_keywords: sanitize_keywords(&config.news_keywords),
        browser_bookmarks: sanitize_bookmarks(&config.browser_bookmarks),
        git_repo_path,
        calendar_providers: sanitize_providers(&config.calendar_providers),
        supabase_session: match copy_session(&config.supabase_session) {
            Some(session) => Some(sanitize_session(session)),
            None => None,
        },
        supabase_sync_enabled: config.supabase_sync_enabled,
        onboarding: sanitize_onboarding_state(config.onboarding.duplicate()),
    };
    assert(r@ =~= sanitize_spec(config@));
    r
}


/// The configuration safe to sync or show: sanitised, without the Supabase session and with
/// the calendar providers' tokens emptied.
pub open spec fn sync_safe_spec(c: ConfigView) -> ConfigView {
    let s = sanitize_spec(c);
    ConfigView {
        supabase_session: None,
        calendar_providers: s.calendar_providers.map_values(
            |p: ProviderView| (p.0, p.1, Seq::<char>::empty(), Seq::<char>::empty(), p.4),
        ),
        ..s
    }
}

/// The sanitised configuration without its secrets.
pub fn sync_safe_config(config: &Config) -> (r: Config)
    ensures
        r@ == sync_safe_spec(config@),
{
    let mut safe = sanitized_copy(config);
    let ghost s = safe@;
    let mut providers: Vec<CalendarProvider> = Vec::new();
    let mut i: usize = 0;
    while i < safe.calendar_providers.len()
        invariant
            i <= safe.calendar_providers.len(),
            views(providers@) == views(safe.calendar_providers@).map_values(
                |p: ProviderView| (p.0, p.1, Seq::<char>::empty(), Seq::<char>::empty(), p.4),
            ).take(i as int),
        decreases safe.calendar_providers.len() - i,
    {
        let p = &safe.calendar_providers[i];
        let x = CalendarProvider {
            provider: p.provider.clone(),
            email: p.email.clone(),
            access_token: String::new(),
            refresh_token: String::new(),
            expires_at: p.expires_at,
        };
        let ghost prev = providers@;
        providers.push(x);
        assert(views(providers@) =~= views(prev).push(x@));
        i = i + 1;
        assert(views(providers@) =~= views(safe.calendar_providers@).map_values(
            |p: ProviderView| (p.0, p.1, Seq::<char>::empty(), Seq::<char>::empty(), p.4),
        ).take(i as int));
    }
    assert(views(safe.calendar_providers@).map_values(
        |p: ProviderView| (p.0, p.1, Seq::<char>::empty(), Seq::<char>::empty(), p.4),
    ).take(i as int) =~= views(safe.calendar_providers@).map_values(
        |p: ProviderView| (p.0, p.1, Seq::<char>::empty(), Seq::<char>::empty(), p.4),
    ));
    safe.calendar_providers = providers;
    safe.supabase_session = None;
    assert(safe@ =~= sync_safe_spec(config@));
    safe
}

/// `current` with the fields a user edits taken from the sanitised `incoming`, then
/// sanitised.
pub open spec fn merge_editable_spec(current: ConfigView, incoming: ConfigView) -> ConfigView {
    let s = sanitize_spec(incoming);
    sanitize_spec(
        ConfigView {
            weather_locations: s.weather_locations,
            stock_symbols: s.stock_symbols,
            news_keywords: s.news_keywords,
            browser_bookmarks: s.browser_bookmarks,
            git_repo_path: s.git_repo_path,
            supabase_sync_enabled: s.supabase_sync_enabled,
            onboarding: s.onboarding,
            ..current
        },
    )
}

/// Takes the editable settings (locations, symbols, keywords, bookmarks, repository path, sync
/// switch, onboarding) from `incoming`; the account fields stay those of `current`.
pub fn merge_editable_config(current: Config, incoming: Config) -> (r: Config)
    ensures
        r@ == merge_editable_spec(current@, incoming@),
{
    let mut current = current;
    let incoming = sanitize(incoming);
    current.weather_locations = incoming.weather_locations;
    current.stock_symbols = incoming.stock_symbols;
    current.news_keywords = incoming.news_keywords;
    current.browser_bookmarks = incoming.browser_bookmarks;
    current.git_repo_path = incoming.git_repo_path;
    current.supabase_sync_enabled = incoming.supabase_sync_enabled;
    current.onboarding = incoming.onboarding;
    sanitize(current)
}

/// The step index `i` clamped into `0..=4`.
pub open spec fn clamp_step_index(i: i32) -> u8 {
    if i < 0 {
        0u8
    } else if i > 4 {
        4u8
    } else {
        i as u8
    }
}

/// The configuration with its onboarding state set, stamped `updated_at`, then sanitised.
pub open spec fn set_onboarding_spec(
    c: ConfigView,
    step: Seq<char>,
    step_index: i32,
    completed: bool,
    updated_at: Seq<char>,
) -> ConfigView {
    sanitize_spec(
        ConfigView {
            onboarding: (
                completed,
                normalize_step_spec(step, completed),
                clamp_step_index(step_index),
                Some(updated_at),
            ),
            ..c
        },
    )
}

/// Sets the onboarding state, stamped with the given time.
pub fn set_onboarding_state_at(
    config: Config,
    current_step: &str,
    step_index: i32,
    completed: bool,
    updated_at: String,
) -> (r: Config)
    ensures
        r@ == set_onboarding_spec(config@, current_step@, step_index, completed, updated_at@),
{
    let mut config = config;
    let index: u8 = if step_index < 0 {
        0
    } else if step_index > 4 {
        4
    } else {
        step_index as u8
    };
    config.onboarding = OnboardingState {
        completed,
        current_step: normalize_onboarding_step(current_step, completed),
        step_index: index,
        updated_at: Some(updated_at),
    };
    sanitize(config)
}

/// Sets the onboarding state, stamped with the current time in RFC 3339
/// (`Utc::now().to_rfc3339()`); `None`, with nothing set, when the machine's clock cannot be
/// read (before 1970, or beyond chrono's range).
pub fn set_onboarding_state(config: Config, current_step: &str, step_index: i32, completed: bool) -> (r:
    Option<Config>)
    ensures
        r matches Some(c) ==> exists|secs: i64, nanos: u32|
            c@ == #[trigger] set_onboarding_spec(
                config@,
                current_step@,
                step_index,
                completed,
                utc_rfc3339_text(secs, nanos),
            ),
{
    let now = match crate::clock::now() {
        Some(m) => m,
        None => return None,
    };
    let stamp = crate::clock::rfc3339_text(&now);
    let ghost secs = now.secs_spec();
    let ghost nanos = now.nanos_spec();
    let r = set_onboarding_state_at(config, current_step, step_index, completed, stamp);
    assert(r@ == set_onboarding_spec(
        config@,
        current_step@,
        step_index,
        completed,
        utc_rfc3339_text(secs, nanos),
    ));
    Some(r)
}

// ---------------------------------------------------------------------------
// Storage and account
// ---------------------------------------------------------------------------

/// The configuration directory that `CONFIG_DIR` names: its value trimmed, unless that is
/// empty (then the platform's directory is used).
pub fn config_dir_override(value: Option<&str>) -> (r: Option<String>)
    ensures
        value is None ==> r is None,
        value matches Some(v) ==> (if trim_spec(v@).len() == 0 {
            r is None
        } else {
            r matches Some(d) && d@ == trim_spec(v@)
        }),
{
    match value {
        None => None,
        Some(v) => {
            let t = trim(&chars_of(v));
            if t.len() == 0 {
                None
            } else {
                Some(string_of(&t))
            }
        },
    }
}

/// The configuration that a read of the configuration file gives: the file's configuration
/// sanitised, or the defaults when there was none or it did not parse.
pub fn loaded_config(parsed: Option<Config>) -> (r: Config)
    ensures
        parsed is None ==> r@ == default_config_view(),
        parsed matches Some(c) ==> r@ == sanitize_spec(c@),
{
    match parsed {
        Some(c) => sanitize(c),
        None => Config::default(),
    }
}

/// The configuration once signed in with this session: the session's account and the
/// session itself; nothing else changes.
pub fn sign_in(config: Config, session: crate::supabase::SupabaseSession) -> (r: Config)
    ensures
        r@ == (ConfigView {
            user_id: session.user_id@,
            supabase_session: Some(
                (
                    session.access_token@,
                    session.refresh_token@,
                    session.expires_at,
                    session.user_id@,
                    opt_view(session.email),
                ),
            ),
            ..config@
        }),
{
    let mut config = config;
    config.user_id = session.user_id.clone();
    config.supabase_session = Some(
        SupabaseSession {
            access_token: session.access_token,
            refresh_token: session.refresh_token,
            expires_at: session.expires_at,
            user_id: session.user_id,
            email: session.email,
        },
    );
    config
}

/// The configuration once signed out: the session is dropped; the account id and
/// everything else stay.
pub fn sign_out(config: Config) -> (r: Config)
    ensures
        r@ == (ConfigView { supabase_session: None, ..config@ }),
{
    let mut config = config;
    config.supabase_session = None;
    config
}

// ---------------------------------------------------------------------------
// Laws of the configuration
// ---------------------------------------------------------------------------

proof fn lemma_filter_map_origin<A, B>(s: Seq<A>, f: spec_fn(A) -> Option<B>, k: int)
    requires
        0 <= k < filter_map(s, f).len(),
    ensures
        exists|j: int| 0 <= j < s.len() && f(s[j]) == Some(#[trigger] filter_map(s, f)[k]),
    decreases s.len(),
{
    let init = s.drop_last();
    let r = filter_map(init, f);
    if k < r.len() {
        lemma_filter_map_origin(init, f, k);
        let j = choose|j: int| 0 <= j < init.len() && f(init[j]) == Some(r[k]);
        assert(init[j] == s[j]);
        assert(filter_map(s, f)[k] == r[k]);
    } else {
        assert(f(s[s.len() - 1]) == Some(filter_map(s, f)[k]));
    }
}

proof fn lemma_filter_map_fixed<A>(s: Seq<A>, f: spec_fn(A) -> Option<A>)
    requires
        forall|k: int| 0 <= k < s.len() ==> f(#[trigger] s[k]) == Some(s[k]),
    ensures
        filter_map(s, f) == s,
    decreases s.len(),
{
    if s.len() > 0 {
        let init = s.drop_last();
        assert forall|k: int| 0 <= k < init.len() implies f(#[trigger] init[k]) == Some(init[k]) by {
            assert(init[k] == s[k]);
        }
        lemma_filter_map_fixed(init, f);
        assert(f(s.last()) == Some(s[s.len() - 1]));
        assert(init.push(s.last()) =~= s);
    }
}

/// A symbol that sanitising kept from ASCII text is kept unchanged by sanitising again.
proof fn lemma_symbol_fixed(s: Seq<char>)
    requires
        all_ascii(s),
        sanitize_symbol_spec(s) is Some,
    ensures
        sanitize_symbol_spec(sanitize_symbol_spec(s)->0) == sanitize_symbol_spec(s),
{
    let t = trim_spec(s);
    lemma_trim_keeps(s, |c: char| (c as u32) < 128);
    assert(all_ascii(t));
    let u = upper_case(t);
    assert(u == t.map_values(|c: char| ascii_upper(c)));
    assert forall|i: int| 0 <= i < u.len() implies (#[trigger] u[i] as u32) < 128 && !('a' <= u[i]
        <= 'z') by {
        assert(u[i] == ascii_upper(t[i]));
    }
    assert(all_ascii(u));
    if u.len() > 0 {
        assert(symbol_char(u[0]));
        assert(symbol_char(u[u.len() - 1]));
    }
    lemma_trim_unchanged(u);
    assert(upper_case(u) =~= u) by {
        assert forall|i: int| 0 <= i < u.len() implies #[trigger] ascii_upper(u[i]) == u[i] by {
            assert(!('a' <= u[i] <= 'z'));
        }
    }
}

proof fn lemma_step_name_trimmed(name: Seq<char>)
    requires
        name == "welcome"@ || name == "account"@ || name == "backup"@ || name == "essentials"@
            || name == "ready"@,
    ensures
        trim_spec(name) == name,
{
    reveal_strlit("welcome");
    reveal_strlit("account");
    reveal_strlit("backup");
    reveal_strlit("essentials");
    reveal_strlit("ready");
    lemma_trim_unchanged(name);
}

/// Sanitising a sanitised onboarding state changes nothing.
pub proof fn lemma_onboarding_sanitised_once(o: OnboardingView)
    ensures
        sanitize_onboarding_spec(sanitize_onboarding_spec(o)) == sanitize_onboarding_spec(o),
{
    let s = sanitize_onboarding_spec(o);
    if !o.0 {
        lemma_step_name_trimmed(s.1);
    }
}

/// Merging keeps the edited settings as sanitising the incoming configuration leaves them:
/// its symbols, sync switch and onboarding come through a second sanitising unchanged.
/// Symbols are claimed for incoming symbols written in ASCII (the case tables are stated for
/// ASCII only).
pub proof fn lemma_merge_keeps_edits(current: ConfigView, incoming: ConfigView)
    requires
        forall|i: int|
            0 <= i < incoming.stock_symbols.len() ==> all_ascii(#[trigger] incoming.stock_symbols[i]),
    ensures
        merge_editable_spec(current, incoming).stock_symbols == sanitize_spec(incoming).stock_symbols,
        merge_editable_spec(current, incoming).supabase_sync_enabled == incoming.supabase_sync_enabled,
        merge_editable_spec(current, incoming).onboarding == sanitize_spec(incoming).onboarding,
{
    lemma_onboarding_sanitised_once(incoming.onboarding);
    let f = |s: Seq<char>| sanitize_symbol_spec(s);
    let fm = filter_map(incoming.stock_symbols, f);
    let ss = sanitize_spec(incoming).stock_symbols;
    assert(ss == at_most(fm, 20));
    assert forall|k: int| 0 <= k < ss.len() implies f(#[trigger] ss[k]) == Some(ss[k]) by {
        assert(ss[k] == fm[k]);
        lemma_filter_map_origin(incoming.stock_symbols, f, k);
        let j = choose|j: int|
            0 <= j < incoming.stock_symbols.len() && f(incoming.stock_symbols[j]) == Some(fm[k]);
        lemma_symbol_fixed(incoming.stock_symbols[j]);
    }
    lemma_filter_map_fixed(ss, f);
    assert(at_most(filter_map(ss, f), 20) == ss);
}

/// A sanitised configuration keeps at most 5 weather locations, 20 stock symbols, 20 news
/// keywords and 50 bookmarks; its onboarding step index is at most 4 and its step is one of
/// the six known steps, `complete` exactly when the state is completed.
pub proof fn lemma_sanitized_limits(c: ConfigView)
    ensures
        ({
            let s = sanitize_spec(c);
            &&& s.weather_locations.len() <= 5
            &&& s.stock_symbols.len() <= 20
            &&& s.news_keywords.len() <= 20
            &&& s.browser_bookmarks.len() <= 50
            &&& s.onboarding.2 <= 4
            &&& s.onboarding.0 ==> s.onboarding.1 == "complete"@
            &&& {
                ||| s.onboarding.1 == "welcome"@
                ||| s.onboarding.1 == "account"@
                ||| s.onboarding.1 == "backup"@
                ||| s.onboarding.1 == "essentials"@
                ||| s.onboarding.1 == "ready"@
                ||| s.onboarding.1 == "complete"@
            }
        }),
{
}

/// What is synced or shown holds no secret: no Supabase session and no provider token.
pub proof fn lemma_sync_safe_holds_no_secrets(c: ConfigView)
    ensures
        sync_safe_spec(c).supabase_session is None,
        forall|i: int|
            0 <= i < sync_safe_spec(c).calendar_providers.len() ==> (#[trigger] sync_safe_spec(
                c,
            ).calendar_providers[i]).2.len() == 0 && sync_safe_spec(c).calendar_providers[i].3.len()
                == 0,
        sync_safe_spec(c).calendar_providers.len() == c.calendar_providers.len(),
{
}

/// Merging edited settings never touches the account: the user id, the Supabase session and
/// the calendar providers are those of the sanitised current configuration.
pub proof fn lemma_merge_keeps_account(current: ConfigView, incoming: ConfigView)
    ensures
        merge_editable_spec(current, incoming).user_id == sanitize_spec(current).user_id,
        merge_editable_spec(current, incoming).supabase_session == sanitize_spec(
            current,
        ).supabase_session,
        merge_editable_spec(current, incoming).calendar_providers == sanitize_spec(
            current,
        ).calendar_providers,
{
}

/// Completion wins over an incomplete state: when either side has completed, so has the
/// merge, whatever the times of the two states.
pub proof fn lemma_completion_wins(local: OnboardingView, remote: OnboardingView)
    requires
        local.0 || remote.0,
    ensures
        sanitize_onboarding_spec(
            if remote_onboarding_wins(local, remote) {
                remote
            } else {
                local
            },
        ).0,
{
}

/// A remote completion is never lost to an incomplete local state.
pub proof fn lemma_remote_completion_wins(local: OnboardingView, remote: OnboardingView)
    requires
        remote.0,
        !local.0,
    ensures
        remote_onboarding_wins(local, remote),
        sanitize_onboarding_spec(remote).0,
        sanitize_onboarding_spec(remote).1 == "complete"@,
{
}

proof fn lemma_clean_list_kept<A>(items: Seq<A>, f: spec_fn(A) -> Option<A>, cap: int)
    requires
        items.len() <= cap,
        forall|k: int| 0 <= k < items.len() ==> f(#[trigger] items[k]) == Some(items[k]),
    ensures
        at_most(filter_map(items, f), cap) == items,
{
    lemma_filter_map_fixed(items, f);
}

/// Merging takes the edited settings from the incoming configuration: locations, keywords,
/// bookmarks and the repository path that are already clean (each item is what sanitising
/// makes of it, within the caps of 5, 20 and 50) come through exactly as given, whatever the
/// current configuration holds.
pub proof fn lemma_merge_takes_clean_edits(current: ConfigView, incoming: ConfigView)
    ensures
        (incoming.weather_locations.len() <= 5 && forall|k: int|
            0 <= k < incoming.weather_locations.len() ==> sanitize_location_spec(
                #[trigger] incoming.weather_locations[k],
            ) == Some(incoming.weather_locations[k])) ==> merge_editable_spec(
            current,
            incoming,
        ).weather_locations == incoming.weather_locations,
        (incoming.news_keywords.len() <= 20 && forall|k: int|
            0 <= k < incoming.news_keywords.len() ==> sanitize_keyword_spec(
                #[trigger] incoming.news_keywords[k],
            ) == Some(incoming.news_keywords[k])) ==> merge_editable_spec(
            current,
            incoming,
        ).news_keywords == incoming.news_keywords,
        (incoming.browser_bookmarks.len() <= 50 && forall|k: int|
            0 <= k < incoming.browser_bookmarks.len() ==> sanitize_bookmark_spec(
                #[trigger] incoming.browser_bookmarks[k],
            ) == Some(incoming.browser_bookmarks[k])) ==> merge_editable_spec(
            current,
            incoming,
        ).browser_bookmarks == incoming.browser_bookmarks,
        sanitize_git_path_spec(incoming.git_repo_path) == incoming.git_repo_path
            ==> merge_editable_spec(current, incoming).git_repo_path == incoming.git_repo_path,
{
    let si = sanitize_spec(incoming);
    let fl = |l: LocationView| sanitize_location_spec(l);
    let fk = |k: Seq<char>| sanitize_keyword_spec(k);
    let fb = |b: BookmarkView| sanitize_bookmark_spec(b);
    if incoming.weather_locations.len() <= 5 && forall|k: int|
        0 <= k < incoming.weather_locations.len() ==> sanitize_location_spec(
            #[trigger] incoming.weather_locations[k],
        ) == Some(incoming.weather_locations[k]) {
        lemma_clean_list_kept(incoming.weather_locations, fl, 5);
        lemma_clean_list_kept(si.weather_locations, fl, 5);
    }
    if incoming.news_keywords.len() <= 20 && forall|k: int|
        0 <= k < incoming.news_keywords.len() ==> sanitize_keyword_spec(
            #[trigger] incoming.news_keywords[k],
        ) == Some(incoming.news_keywords[k]) {
        lemma_clean_list_kept(incoming.news_keywords, fk, 20);
        lemma_clean_list_kept(si.news_keywords, fk, 20);
    }
    if incoming.browser_bookmarks.len() <= 50 && forall|k: int|
        0 <= k < incoming.browser_bookmarks.len() ==> sanitize_bookmark_spec(
            #[trigger] incoming.browser_bookmarks[k],
        ) == Some(incoming.browser_bookmarks[k]) {
        lemma_clean_list_kept(incoming.browser_bookmarks, fb, 50);
        lemma_clean_list_kept(si.browser_bookmarks, fb, 50);
    }
}

/// The edited settings of a merge come from the incoming configuration alone: two merges of
/// the same incoming configuration into different current ones agree on them.
pub proof fn lemma_merge_edits_ignore_current(c1: ConfigView, c2: ConfigView, incoming: ConfigView)
    ensures
        merge_editable_spec(c1, incoming).weather_locations == merge_editable_spec(
            c2,
            incoming,
        ).weather_locations,
        merge_editable_spec(c1, incoming).stock_symbols == merge_editable_spec(
            c2,
            incoming,
        ).stock_symbols,
        merge_editable_spec(c1, incoming).news_keywords == merge_editable_spec(
            c2,
            incoming,
        ).news_keywords,
        merge_editable_spec(c1, incoming).browser_bookmarks == merge_editable_spec(
            c2,
            incoming,
        ).browser_bookmarks,
        merge_editable_spec(c1, incoming).git_repo_path == merge_editable_spec(
            c2,
            incoming,
        ).git_repo_path,
        merge_editable_spec(c1, incoming).supabase_sync_enabled == merge_editable_spec(
            c2,
            incoming,
        ).supabase_sync_enabled,
        merge_editable_spec(c1, incoming).onboarding == merge_editable_spec(c2, incoming).onboarding,
{
}

} // verus!
