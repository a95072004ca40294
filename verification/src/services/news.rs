//! Headlines from NewsAPI, matched against the user's keywords.
use vstd::prelude::*;

use crate::config::{opt_view, views};
use crate::supabase::result_view;
use crate::weburl::{http_url, http_url_spec, pairs_view, url_with_query, url_with_query_result};
use crate::text::{
    chars_of, contains, contains_spec, from_str, lower_case, push_all, push_str, string_of,
    to_lowercase, trim, trim_spec,
};

verus! {

/// A headline to show.
pub struct NewsItem {
    pub title: String,
    pub source: String,
    pub url: String,
    pub published_at: String,
    pub description: Option<String>,
    pub url_to_image: Option<String>,
}

pub type NewsItemView = (
    Seq<char>,
    Seq<char>,
    Seq<char>,
    Seq<char>,
    Option<Seq<char>>,
    Option<Seq<char>>,
);

impl View for NewsItem {
    type V = NewsItemView;

    open spec fn view(&self) -> NewsItemView {
        (
            self.title@,
            self.source@,
            self.url@,
            self.published_at@,
            opt_view(self.description),
            opt_view(self.url_to_image),
        )
    }
}

/// The source of an article as NewsAPI sends it.
pub struct NewsApiSource {
    pub name: Option<String>,
}

/// An article as NewsAPI sends it.
pub struct NewsApiArticle {
    pub title: Option<String>,
    pub source: Option<NewsApiSource>,
    pub url: Option<String>,
    pub published_at: Option<String>,
    pub description: Option<String>,
    pub url_to_image: Option<String>,
}

/// The keywords trimmed, empty ones dropped, at most 20.
pub open spec fn clean_keywords_spec(keywords: Seq<Seq<char>>) -> Seq<Seq<char>>
    decreases keywords.len(),
{
    if keywords.len() == 0 {
        Seq::empty()
    } else {
        let r = clean_keywords_spec(keywords.drop_last());
        let k = trim_spec(keywords.last());
        if k.len() > 0 && r.len() < 20 {
            r.push(k)
        } else {
            r
        }
    }
}

/// The trimmed, non-empty keywords, at most 20.
pub fn clean_news_keywords(keywords: &[String]) -> (r: Vec<String>)
    ensures
        views(r@) == clean_keywords_spec(views(keywords@)),
{
    let ghost ks = views(keywords@);
    let mut out: Vec<String> = Vec::new();
    let mut i: usize = 0;
    while i < keywords.len()
        invariant
            i <= keywords.len(),
            ks == views(keywords@),
            views(out@) == clean_keywords_spec(ks.take(i as int)),
        decreases keywords.len() - i,
    {
        proof {
            assert(ks.take(i + 1).drop_last() =~= ks.take(i as int));
            assert(ks.take(i + 1).last() == keywords@[i as int]@);
        }
        let k = trim(&chars_of(keywords[i].as_str()));
        if k.len() > 0 && out.len() < 20 {
            let s = string_of(&k);
            let ghost prev = out@;
            out.push(s);
            assert(views(out@) =~= views(prev).push(s@));
        }
        i = i + 1;
    }
    assert(ks.take(keywords.len() as int) =~= ks);
    out
}

/// The keywords joined with ` OR `.
pub open spec fn join_or(keywords: Seq<Seq<char>>) -> Seq<char>
    decreases keywords.len(),
{
    if keywords.len() == 0 {
        Seq::empty()
    } else if keywords.len() == 1 {
        keywords[0]
    } else {
        join_or(keywords.drop_last()) + " OR "@ + keywords.last()
    }
}

/// The search query: the keywords joined with ` OR `, or `technology` when there are none.
pub open spec fn news_query_spec(keywords: Seq<Seq<char>>) -> Seq<char> {
    if keywords.len() == 0 {
        "technology"@
    } else {
        join_or(keywords)
    }
}

pub fn news_query(clean_keywords: &Vec<String>) -> (r: String)
    ensures
        r@ == news_query_spec(views(clean_keywords@)),
{
    if clean_keywords.len() == 0 {
        return from_str("technology");
    }
    let ghost ks = views(clean_keywords@);
    let mut out: Vec<char> = chars_of(clean_keywords[0].as_str());
    let mut i: usize = 1;
    assert(ks.take(1).drop_last() =~= Seq::<Seq<char>>::empty());
    while i < clean_keywords.len()
        invariant
            1 <= i <= clean_keywords.len(),
            ks == views(clean_keywords@),
            out@ == join_or(ks.take(i as int)),
        decreases clean_keywords.len() - i,
    {
        push_str(&mut out, " OR ");
        push_str(&mut out, clean_keywords[i].as_str());
        proof {
            assert(ks.take(i + 1).drop_last() =~= ks.take(i as int));
            assert(ks.take(i + 1).last() == clean_keywords@[i as int]@);
        }
        i = i + 1;
    }
    assert(ks.take(clean_keywords.len() as int) =~= ks);
    string_of(&out)
}

/// The query of a NewsAPI search: the latest 25 English articles for the query, the
/// candidates from which the headlines are chosen.
pub open spec fn news_pairs(query: Seq<char>) -> Seq<(Seq<char>, Seq<char>)> {
    seq![("q"@, query), ("pageSize"@, "25"@), ("sortBy"@, "publishedAt"@), ("language"@, "en"@)]
}

pub open spec fn news_url_spec(query: Seq<char>) -> Result<Seq<char>, Seq<char>> {
    match url_with_query_result("https://newsapi.org/v2/everything"@, news_pairs(query)) {
        Ok(u) => Ok(u),
        Err(e) => Err("Invalid News API URL: "@ + e),
    }
}

/// The search request for the query.
pub fn news_request_url(query: &str) -> (r: Result<String, String>)
    ensures
        result_view(r) == news_url_spec(query@),
{
    let mut pairs: Vec<(String, String)> = Vec::new();
    pairs.push((from_str("q"), from_str(query)));
    pairs.push((from_str("pageSize"), from_str("25")));
    pairs.push((from_str("sortBy"), from_str("publishedAt")));
    pairs.push((from_str("language"), from_str("en")));
    assert(pairs_view(pairs@) =~= news_pairs(query@));
    match url_with_query("https://newsapi.org/v2/everything", &pairs) {
        Ok(u) => Ok(u),
        Err(e) => {
            let mut msg = chars_of("Invalid News API URL: ");
            push_str(&mut msg, e.as_str());
            Err(string_of(&msg))
        },
    }
}

/// The keywords in lower case.
pub open spec fn needles_spec(keywords: Seq<Seq<char>>) -> Seq<Seq<char>> {
    keywords.map_values(|k: Seq<char>| lower_case(k))
}

/// Whether some needle occurs in the text.
pub open spec fn mentions_any(hay: Seq<char>, needles: Seq<Seq<char>>) -> bool {
    exists|i: int| 0 <= i < needles.len() && contains_spec(hay, #[trigger] needles[i])
}

/// The headline an article gives: none without a title, a source or a link, nor when there
/// are keywords and none occurs in its lower-cased title and description; an unnamed source
/// is `Unknown`.
pub open spec fn article_item_spec(a: NewsApiArticle, needles: Seq<Seq<char>>) -> Option<
    NewsItemView,
> {
    if a.title is None {
        None
    } else {
        let title = a.title->0@;
        let haystack = lower_case(title) + " "@ + lower_case(
            match a.description {
                Some(d) => d@,
                None => Seq::empty(),
            },
        );
        if needles.len() > 0 && !mentions_any(haystack, needles) {
            None
        } else if a.source is None || a.url is None || http_url_spec(a.url->0@) is None {
            None
        } else {
            Some(
                (
                    title,
                    match a.source->0.name {
                        Some(n) => n@,
                        None => "Unknown"@,
                    },
                    http_url_spec(a.url->0@)->0,
                    match a.published_at {
                        Some(p) => p@,
                        None => Seq::empty(),
                    },
                    opt_view(a.description),
                    opt_view(a.url_to_image),
                ),
            )
        }
    }
}

/// The links of the headlines.
pub open spec fn item_urls(items: Seq<NewsItemView>) -> Seq<Seq<char>> {
    items.map_values(|i: NewsItemView| i.2)
}

/// The headlines of the articles, in order, at most 5, none repeating the link of an earlier
/// one.
pub open spec fn select_news_spec(articles: Seq<NewsApiArticle>, needles: Seq<Seq<char>>) -> Seq<
    NewsItemView,
>
    decreases articles.len(),
{
    if articles.len() == 0 {
        Seq::empty()
    } else {
        let r = select_news_spec(articles.drop_last(), needles);
        match article_item_spec(articles.last(), needles) {
            Some(item) => if r.len() < 5 && !item_urls(r).contains(item.2) {
                r.push(item)
            } else {
                r
            },
            None => r,
        }
    }
}

fn lowercase_all(keywords: &Vec<String>) -> (r: Vec<Vec<char>>)
    ensures
        r@.map_values(|v: Vec<char>| v@) == needles_spec(views(keywords@)),
{
    let mut out: Vec<Vec<char>> = Vec::new();
    let mut i: usize = 0;
    while i < keywords.len()
        invariant
            i <= keywords.len(),
            out@.map_values(|v: Vec<char>| v@) == needles_spec(views(keywords@)).take(i as int),
        decreases keywords.len() - i,
    {
        let lower = chars_of(to_lowercase(keywords[i].as_str()).as_str());
        let ghost prev = out@;
        let ghost lv = lower@;
        assert(lv == lower_case(keywords@[i as int]@));
        out.push(lower);
        assert(out@.map_values(|v: Vec<char>| v@) =~= prev.map_values(|v: Vec<char>| v@).push(lv));
        assert(out@.map_values(|v: Vec<char>| v@) =~= needles_spec(views(keywords@)).take(i + 1));
        i = i + 1;
    }
    assert(needles_spec(views(keywords@)).take(keywords.len() as int) =~= needles_spec(
        views(keywords@),
    ));
    out
}

fn mentions_any_exec(hay: &Vec<char>, needles: &Vec<Vec<char>>) -> (r: bool)
    ensures
        r == mentions_any(hay@, needles@.map_values(|v: Vec<char>| v@)),
{
    let ghost ns = needles@.map_values(|v: Vec<char>| v@);
    let mut i: usize = 0;
    while i < needles.len()
        invariant
            i <= needles.len(),
            ns == needles@.map_values(|v: Vec<char>| v@),
            forall|k: int| 0 <= k < i ==> !contains_spec(hay@, #[trigger] ns[k]),
        decreases needles.len() - i,
    {
        if contains(hay, &needles[i]) {
            assert(contains_spec(hay@, ns[i as int]));
            return true;
        }
        i = i + 1;
    }
    false
}

fn copy_opt(o: &Option<String>) -> (r: Option<String>)
    ensures
        r == *o,
{
    match o {
        Some(s) => Some(s.clone()),
        None => None,
    }
}

fn article_item(a: &NewsApiArticle, needles: &Vec<Vec<char>>) -> (r: Option<NewsItem>)
    ensures
        r matches Some(item) ==> http_url_spec(item.url@) == Some(item.url@),
        match r {
            Some(item) => article_item_spec(*a, needles@.map_values(|v: Vec<char>| v@)) == Some(
                item@,
            ),
            None => article_item_spec(*a, needles@.map_values(|v: Vec<char>| v@)) is None,
        },
{
    let title = match &a.title {
        Some(t) => t,
        None => return None,
    };
    if needles.len() > 0 {
        let mut hay: Vec<char> = chars_of(to_lowercase(title.as_str()).as_str());
        hay.push(' ');
        let desc = match &a.description {
            Some(d) => to_lowercase(d.as_str()),
            None => to_lowercase(""),
        };
        proof {
            if a.description is None {
                assert(""@ =~= Seq::<char>::empty()) by {
                    reveal_strlit("");
                }
            }
        }
        push_str(&mut hay, desc.as_str());
        proof {
            reveal_strlit(" ");
            assert(hay@ =~= lower_case(title@) + " "@ + lower_case(
                match a.description {
                    Some(d) => d@,
                    None => Seq::empty(),
                },
            ));
        }
        if !mentions_any_exec(&hay, needles) {
            return None;
        }
    }
    let source = match &a.source {
        Some(s) => match &s.name {
            Some(n) => n.clone(),
            None => from_str("Unknown"),
        },
        None => return None,
    };
    let url = match &a.url {
        Some(u) => match http_url(u.as_str()) {
            Some(s) => s,
            None => return None,
        },
        None => return None,
    };
    let published_at = match &a.published_at {
        Some(p) => p.clone(),
        None => String::new(),
    };
    Some(
        NewsItem {
            title: title.clone(),
            source,
            url,
            published_at,
            description: copy_opt(&a.description),
            url_to_image: copy_opt(&a.url_to_image),
        },
    )
}

fn url_listed(items: &Vec<NewsItem>, url: &String) -> (r: bool)
    ensures
        r == item_urls(views(items@)).contains(url@),
{
    let ghost us = item_urls(views(items@));
    let target = chars_of(url.as_str());
    let mut i: usize = 0;
    while i < items.len()
        invariant
            i <= items.len(),
            us == item_urls(views(items@)),
            target@ == url@,
            forall|j: int| 0 <= j < i ==> us[j] != url@,
        decreases items.len() - i,
    {
        assert(us[i as int] == items@[i as int].url@);
        if crate::text::chars_eq(&chars_of(items[i].url.as_str()), &target) {
            return true;
        }
        i = i + 1;
    }
    false
}

/// The headlines to show: articles with a title, a source and an http(s) link (kept in its
/// serialised form) that mention one of the cleaned keywords (any article when there are
/// none), none repeating an earlier link, at most 5. Each link parses as itself.
pub fn select_news(articles: &Vec<NewsApiArticle>, clean_keywords: &Vec<String>) -> (r: Vec<
    NewsItem,
>)
    ensures
        views(r@) == select_news_spec(articles@, needles_spec(views(clean_keywords@))),
        forall|k: int| 0 <= k < r@.len() ==> http_url_spec((#[trigger] r@[k]).url@) == Some(r@[k].url@),
{
    let needles = lowercase_all(clean_keywords);
    let ghost ns = needles_spec(views(clean_keywords@));
    let mut out: Vec<NewsItem> = Vec::new();
    let mut i: usize = 0;
    while i < articles.len()
        invariant
            i <= articles.len(),
            ns == needles@.map_values(|v: Vec<char>| v@),
            views(out@) == select_news_spec(articles@.take(i as int), ns),
            forall|k: int| 0 <= k < out@.len() ==> http_url_spec((#[trigger] out@[k]).url@) == Some(out@[k].url@),
        decreases articles.len() - i,
    {
        proof {
            assert(articles@.take(i + 1).drop_last() =~= articles@.take(i as int));
            assert(articles@.take(i + 1).last() == articles@[i as int]);
        }
        match article_item(&articles[i], &needles) {
            Some(item) => {
                if out.len() < 5 && !url_listed(&out, &item.url) {
                    let ghost prev = out@;
                    out.push(item);
                    assert(views(out@) =~= views(prev).push(item@));
                }
            },
            None => {},
        }
        i = i + 1;
    }
    assert(articles@.take(articles.len() as int) =~= articles@);
    out
}

/// At most five headlines are shown, no two with the same link, and each is the headline of
/// one of the articles: so it has a title, a source and an http(s) link, and, when there are
/// keywords, its lower-cased title and description mention one of them.
pub proof fn lemma_selected_news(articles: Seq<NewsApiArticle>, needles: Seq<Seq<char>>)
    ensures
        select_news_spec(articles, needles).len() <= 5,
        forall|k: int|
            0 <= k < select_news_spec(articles, needles).len() ==> exists|j: int|
                0 <= j < articles.len() && article_item_spec(articles[j], needles) == Some(
                    #[trigger] select_news_spec(articles, needles)[k],
                ),
        forall|a: int, b: int|
            0 <= a < b < select_news_spec(articles, needles).len() ==> (#[trigger] select_news_spec(
                articles,
                needles,
            )[a]).2 != (#[trigger] select_news_spec(articles, needles)[b]).2,
    decreases articles.len(),
{
    if articles.len() > 0 {
        let init = articles.drop_last();
        lemma_selected_news(init, needles);
        let r = select_news_spec(init, needles);
        let s = select_news_spec(articles, needles);
        let n = articles.len() - 1;
        assert(articles.last() == articles[n]);
        assert forall|k: int| 0 <= k < s.len() implies exists|j: int|
            0 <= j < articles.len() && article_item_spec(articles[j], needles) == Some(
                #[trigger] s[k],
            ) by {
            if k < r.len() {
                assert(s[k] == r[k]);
                let j = choose|j: int|
                    0 <= j < init.len() && article_item_spec(init[j], needles) == Some(r[k]);
                assert(init[j] == articles[j]);
            } else {
                assert(article_item_spec(articles[n], needles) == Some(s[k]));
            }
        }
        assert forall|a: int, b: int| 0 <= a < b < s.len() implies (#[trigger] s[a]).2
            != (#[trigger] s[b]).2 by {
            assert(s[a] == r[a]);
            if b < r.len() {
                assert(s[b] == r[b]);
            } else {
                assert(!item_urls(r).contains(s[b].2));
                assert(item_urls(r)[a] == r[a].2);
            }
        }
    }
}

/// An article fit to show for the keywords `needles`: with a title, a source and an http(s)
/// link, and, when there are keywords, with at least one of them in its lower-cased title and
/// description.
pub open spec fn newsworthy(a: NewsApiArticle, needles: Seq<Seq<char>>) -> bool {
    &&& a.title is Some
    &&& a.source is Some
    &&& a.url is Some
    &&& http_url_spec(a.url->0@) is Some
    &&& (needles.len() == 0 || exists|i: int|
        0 <= i < needles.len() && contains_spec(
            lower_case(a.title->0@) + " "@ + lower_case(
                match a.description {
                    Some(d) => d@,
                    None => Seq::empty(),
                },
            ),
            #[trigger] needles[i],
        ))
}

proof fn lemma_newsworthy_item(a: NewsApiArticle, needles: Seq<Seq<char>>)
    requires
        newsworthy(a, needles),
    ensures
        article_item_spec(a, needles) matches Some(item) && item.2 == http_url_spec(a.url->0@)->0,
{
}

/// Every article fit to show is shown, or its link already is, unless five headlines are
/// already shown: one keyword is enough for an article to count.
pub proof fn lemma_newsworthy_articles_shown(articles: Seq<NewsApiArticle>, needles: Seq<Seq<char>>, j: int)
    requires
        0 <= j < articles.len(),
        newsworthy(articles[j], needles),
        select_news_spec(articles, needles).len() < 5,
    ensures
        item_urls(select_news_spec(articles, needles)).contains(
            http_url_spec(articles[j].url->0@)->0,
        ),
    decreases articles.len(),
{
    let init = articles.drop_last();
    let r = select_news_spec(init, needles);
    let s = select_news_spec(articles, needles);
    let n = articles.len() - 1;
    assert(articles.last() == articles[n]);
    assert(r.len() <= s.len());
    assert forall|k: int| 0 <= k < r.len() implies #[trigger] s[k] == r[k] by {}
    assert forall|k: int| 0 <= k < r.len() implies #[trigger] item_urls(s)[k] == item_urls(r)[k] by {
        assert(s[k] == r[k]);
    }
    if j < n {
        assert(init[j] == articles[j]);
        lemma_newsworthy_articles_shown(init, needles, j);
        let u = http_url_spec(articles[j].url->0@)->0;
        let k = choose|k: int| 0 <= k < item_urls(r).len() && item_urls(r)[k] == u;
        assert(item_urls(s)[k] == u);
    } else {
        lemma_newsworthy_item(articles[n], needles);
        let item = article_item_spec(articles[n], needles)->0;
        if item_urls(r).contains(item.2) {
            let k = choose|k: int| 0 <= k < item_urls(r).len() && item_urls(r)[k] == item.2;
            assert(item_urls(s)[k] == item.2);
        } else {
            assert(s == r.push(item));
            assert(item_urls(s)[r.len() as int] == item.2);
        }
    }
}

} // verus!
