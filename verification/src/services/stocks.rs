//! Quotes and company profiles from Finnhub.
use vstd::prelude::*;

use crate::supabase::result_view;
use crate::text::{chars_of, from_str, push_str, string_of};
use crate::weburl::{pairs_view, url_with_query, url_with_query_result};

verus! {

/// The query that names a symbol and the API token.
pub open spec fn finnhub_pairs(symbol: Seq<char>, token: Seq<char>) -> Seq<(Seq<char>, Seq<char>)> {
    seq![("symbol"@, symbol), ("token"@, token)]
}

/// A Finnhub request address, or `what` and the parse error.
pub open spec fn finnhub_url_spec(
    base: Seq<char>,
    what: Seq<char>,
    symbol: Seq<char>,
    token: Seq<char>,
) -> Result<Seq<char>, Seq<char>> {
    match url_with_query_result(base, finnhub_pairs(symbol, token)) {
        Ok(u) => Ok(u),
        Err(e) => Err("Invalid Finnhub "@ + what + " URL: "@ + e),
    }
}

fn finnhub_url(base: &str, what: &str, symbol: &str, token: &str) -> (r: Result<String, String>)
    ensures
        result_view(r) == finnhub_url_spec(base@, what@, symbol@, token@),
{
    let mut pairs: Vec<(String, String)> = Vec::new();
    pairs.push((from_str("symbol"), from_str(symbol)));
    pairs.push((from_str("token"), from_str(token)));
    assert(pairs_view(pairs@) =~= finnhub_pairs(symbol@, token@));
    match url_with_query(base, &pairs) {
        Ok(u) => Ok(u),
        Err(e) => {
            let mut msg = chars_of("Invalid Finnhub ");
            push_str(&mut msg, what);
            push_str(&mut msg, " URL: ");
            push_str(&mut msg, e.as_str());
            Err(string_of(&msg))
        },
    }
}

/// The company-profile request for a (sanitised) symbol.
pub fn stock_profile_url(symbol: &str, token: &str) -> (r: Result<String, String>)
    ensures
        result_view(r) == finnhub_url_spec(
            "https://finnhub.io/api/v1/stock/profile2"@,
            "profile"@,
            symbol@,
            token@,
        ),
{
    finnhub_url("https://finnhub.io/api/v1/stock/profile2", "profile", symbol, token)
}

/// The quote request for a (sanitised) symbol.
pub fn stock_quote_url(symbol: &str, token: &str) -> (r: Result<String, String>)
    ensures
        result_view(r) == finnhub_url_spec(
            "https://finnhub.io/api/v1/quote"@,
            "quote"@,
            symbol@,
            token@,
        ),
{
    finnhub_url("https://finnhub.io/api/v1/quote", "quote", symbol, token)
}

} // verus!
