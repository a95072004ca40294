//! The user's configuration and onboarding progress as rows of Supabase's REST tables: the
//! request addresses, and what a fetched or uploaded row becomes.
use vstd::prelude::*;

use crate::config::{
    default_config_view, sanitize, sanitize_onboarding_spec, sanitize_onboarding_state,
    sanitize_spec, Config, OnboardingState, OnboardingView,
};
use crate::supabase::result_view;
use crate::text::{chars_of, from_str, push_str, string_of};
use crate::weburl::{pairs_view, url_with_query, url_with_query_result};

verus! {

/// The REST address of a table under the Supabase address.
pub open spec fn table_base(supabase_url: Seq<char>, table: Seq<char>) -> Seq<char> {
    supabase_url + "/rest/v1/"@ + table
}

/// A table's address with this query, or the parse error behind `Invalid Supabase URL: `.
pub open spec fn rest_url_spec(
    supabase_url: Seq<char>,
    table: Seq<char>,
    pairs: Seq<(Seq<char>, Seq<char>)>,
) -> Result<Seq<char>, Seq<char>> {
    match url_with_query_result(table_base(supabase_url, table), pairs) {
        Ok(u) => Ok(u),
        Err(e) => Err("Invalid Supabase URL: "@ + e),
    }
}

fn rest_url(supabase_url: &str, table: &str, pairs: &Vec<(String, String)>) -> (r: Result<
    String,
    String,
>)
    ensures
        result_view(r) == rest_url_spec(supabase_url@, table@, pairs_view(pairs@)),
{
    let mut base = chars_of(supabase_url);
    push_str(&mut base, "/rest/v1/");
    push_str(&mut base, table);
    let base = string_of(&base);
    match url_with_query(base.as_str(), pairs) {
        Ok(u) => Ok(u),
        Err(e) => {
            let mut msg = chars_of("Invalid Supabase URL: ");
            push_str(&mut msg, e.as_str());
            Err(string_of(&msg))
        },
    }
}

fn user_filter(user_id: &str) -> (r: String)
    ensures
        r@ == "eq."@ + user_id@,
{
    let mut f = chars_of("eq.");
    push_str(&mut f, user_id);
    string_of(&f)
}

/// The query that reads the stored configuration of a user.
pub open spec fn config_fetch_pairs(user_id: Seq<char>) -> Seq<(Seq<char>, Seq<char>)> {
    seq![("user_id"@, "eq."@ + user_id), ("select"@, "config"@)]
}

/// The address that reads the user's row of `user_config`.
pub fn config_fetch_url(supabase_url: &str, user_id: &str) -> (r: Result<String, String>)
    ensures
        result_view(r) == rest_url_spec(supabase_url@, "user_config"@, config_fetch_pairs(user_id@)),
{
    let mut pairs: Vec<(String, String)> = Vec::new();
    pairs.push((from_str("user_id"), user_filter(user_id)));
    pairs.push((from_str("select"), from_str("config")));
    assert(pairs_view(pairs@) =~= config_fetch_pairs(user_id@));
    rest_url(supabase_url, "user_config", &pairs)
}

/// The query that reads the onboarding progress of a user: one row, four columns.
pub open spec fn onboarding_fetch_pairs(user_id: Seq<char>) -> Seq<(Seq<char>, Seq<char>)> {
    seq![
        ("user_id"@, "eq."@ + user_id),
        ("select"@, "completed,current_step,step_index,updated_at"@),
        ("limit"@, "1"@),
    ]
}

/// The address that reads the user's row of `user_onboarding_state`.
pub fn onboarding_fetch_url(supabase_url: &str, user_id: &str) -> (r: Result<String, String>)
    ensures
        result_view(r) == rest_url_spec(
            supabase_url@,
            "user_onboarding_state"@,
            onboarding_fetch_pairs(user_id@),
        ),
{
    let mut pairs: Vec<(String, String)> = Vec::new();
    pairs.push((from_str("user_id"), user_filter(user_id)));
    pairs.push((from_str("select"), from_str("completed,current_step,step_index,updated_at")));
    pairs.push((from_str("limit"), from_str("1")));
    assert(pairs_view(pairs@) =~= onboarding_fetch_pairs(user_id@));
    rest_url(supabase_url, "user_onboarding_state", &pairs)
}

/// The query of an upsert keyed by the user.
pub open spec fn upsert_pairs() -> Seq<(Seq<char>, Seq<char>)> {
    seq![("on_conflict"@, "user_id"@)]
}

/// The address that writes a table's row for a user, replacing the one it has.
pub fn upsert_url(supabase_url: &str, table: &str) -> (r: Result<String, String>)
    ensures
        result_view(r) == rest_url_spec(supabase_url@, table@, upsert_pairs()),
{
    let mut pairs: Vec<(String, String)> = Vec::new();
    pairs.push((from_str("on_conflict"), from_str("user_id")));
    assert(pairs_view(pairs@) =~= upsert_pairs());
    rest_url(supabase_url, table, &pairs)
}

/// The address of the signed-in user.
pub fn user_url(supabase_url: &str) -> (r: String)
    ensures
        r@ == supabase_url@ + "/auth/v1/user"@,
{
    let mut u = chars_of(supabase_url);
    push_str(&mut u, "/auth/v1/user");
    string_of(&u)
}

/// The configuration of the fetched rows, of which the first, when there is one, was read
/// into `first_row`: the defaults when there is no row, the sanitised configuration when the
/// row reads, and the reading error otherwise.
pub fn fetched_config(first_row: Option<Result<Config, String>>) -> (r: Result<Config, String>)
    ensures
        first_row is None ==> (r matches Ok(c) && c@ == default_config_view()),
        first_row matches Some(Ok(c)) ==> (r matches Ok(s) && s@ == sanitize_spec(c@)),
        first_row matches Some(Err(e)) ==> (r matches Err(m) && m@ == "Deserialize failed: "@ + e@),
{
    match first_row {
        None => Ok(Config::default()),
        Some(Ok(c)) => Ok(sanitize(c)),
        Some(Err(e)) => {
            let mut msg = chars_of("Deserialize failed: ");
            push_str(&mut msg, e.as_str());
            Err(string_of(&msg))
        },
    }
}

/// The onboarding state of the fetched rows: the first, sanitised, if there is one.
pub fn first_onboarding_row(rows: Vec<OnboardingState>) -> (r: Option<OnboardingState>)
    ensures
        rows@.len() == 0 ==> r is None,
        rows@.len() > 0 ==> (r matches Some(s) && s@ == sanitize_onboarding_spec(rows@[0]@)),
{
    let mut rows = rows;
    if rows.len() == 0 {
        None
    } else {
        let first = rows.swap_remove(0);
        Some(sanitize_onboarding_state(first))
    }
}

/// The onboarding row to upload: the sanitised state, stamped with `now` when it has no
/// time of its own.
pub open spec fn onboarding_upload_spec(state: OnboardingView, now: Seq<char>) -> OnboardingView {
    let s = sanitize_onboarding_spec(state);
    (s.0, s.1, s.2, Some(if s.3 is Some { s.3->0 } else { now }))
}

/// Sanitises the state to upload and fills its time with `now` (RFC 3339) when it has none.
pub fn onboarding_upload(state: OnboardingState, now: String) -> (r: OnboardingState)
    ensures
        r@ == onboarding_upload_spec(state@, now@),
        r.updated_at is Some,
{
    let s = sanitize_onboarding_state(state);
    let updated_at = match s.updated_at {
        Some(t) => t,
        None => now,
    };
    OnboardingState {
        completed: s.completed,
        current_step: s.current_step,
        step_index: s.step_index,
        updated_at: Some(updated_at),
    }
}

} // verus!
