use happy_wakey::services::news::{
    clean_news_keywords, news_query, news_request_url, select_news, NewsApiArticle, NewsApiSource,
};
use happy_wakey::services::stocks::{stock_profile_url, stock_quote_url};
use happy_wakey::services::weather::{open_meteo_url, valid_coordinates, weather_url, wmo_weather};

fn strings(list: &[&str]) -> Vec<String> {
    list.iter().map(|s| s.to_string()).collect()
}

fn article(title: Option<&str>, description: Option<&str>, source: Option<Option<&str>>) -> NewsApiArticle {
    linked(title, description, source, &format!("https://news.example.com/{}", title.unwrap_or("x").len()))
}

fn linked(title: Option<&str>, description: Option<&str>, source: Option<Option<&str>>, url: &str) -> NewsApiArticle {
    NewsApiArticle {
        title: title.map(|t| t.to_string()),
        source: source.map(|n| NewsApiSource {
            name: n.map(|s| s.to_string()),
        }),
        url: Some(url.into()),
        published_at: None,
        description: description.map(|d| d.to_string()),
        url_to_image: None,
    }
}

#[test]
fn keywords_are_trimmed_and_joined() {
    let clean = clean_news_keywords(&strings(&["  Rust ", "", "   ", "AI"]));
    assert_eq!(clean, vec!["Rust", "AI"]);
    assert_eq!(news_query(&clean), "Rust OR AI");
    assert_eq!(news_query(&Vec::new()), "technology");
    let many: Vec<String> = (0..30).map(|i| format!("k{i}")).collect();
    assert_eq!(clean_news_keywords(&many).len(), 20);
}

#[test]
fn news_request_url_encodes_the_query() {
    assert_eq!(
        news_request_url("Rust OR AI").unwrap(),
        "https://newsapi.org/v2/everything?q=Rust+OR+AI&pageSize=25&sortBy=publishedAt&language=en"
    );
}

#[test]
fn articles_are_matched_against_keywords() {
    let articles = vec![
        article(Some("Rust 2.0 released"), None, Some(Some("Blog"))),
        article(Some("Markets fall"), Some("Nothing about it"), Some(Some("Wire"))),
        article(Some("Quiet day"), Some("A RUST belt story"), Some(None)),
        article(None, Some("rust"), Some(Some("Wire"))),
        article(Some("rust without source"), None, None),
    ];
    let items = select_news(&articles, &strings(&["Rust"]));
    assert_eq!(items.len(), 2);
    assert_eq!(items[0].title, "Rust 2.0 released");
    assert_eq!(items[0].source, "Blog");
    assert_eq!(items[0].published_at, "");
    assert_eq!(items[1].source, "Unknown");
    let all = select_news(&articles, &Vec::new());
    assert_eq!(all.len(), 3);
}

#[test]
fn at_most_five_headlines() {
    let articles: Vec<NewsApiArticle> = (0..8)
        .map(|i| linked(Some("Story"), None, Some(Some("Wire")), &format!("https://w.example/{i}")))
        .collect();
    assert_eq!(select_news(&articles, &Vec::new()).len(), 5);
}

#[test]
fn repeated_and_unsafe_links_are_dropped() {
    let articles = vec![
        linked(Some("A"), None, Some(Some("Wire")), "javascript:alert(1)"),
        linked(Some("B"), None, Some(Some("Wire")), "javascript:alert(1)"),
        linked(Some("C"), None, Some(Some("Wire")), "HTTPS://News.Example.com/story"),
        linked(Some("D"), None, Some(Some("Wire")), "https://news.example.com/story"),
        linked(Some("E"), None, Some(Some("Wire")), "ftp://news.example.com/f"),
        linked(Some("F"), None, Some(Some("Wire")), "https://news.example.com/other"),
    ];
    let items = select_news(&articles, &Vec::new());
    assert_eq!(items.len(), 2);
    assert_eq!(items[0].title, "C");
    assert_eq!(items[0].url, "https://news.example.com/story");
    assert_eq!(items[1].title, "F");
}

#[test]
fn weather_coordinates_and_url() {
    assert!(valid_coordinates(52.5f64.to_bits(), 13.4f64.to_bits()));
    assert!(!valid_coordinates(f64::NAN.to_bits(), 0f64.to_bits()));
    assert!(!valid_coordinates(0f64.to_bits(), 180.5f64.to_bits()));
    assert!(!valid_coordinates((-90.5f64).to_bits(), 0f64.to_bits()));
    assert_eq!(
        weather_url(&52.5f64.to_string(), &13.4f64.to_string(), "k").unwrap(),
        "https://api.openweathermap.org/data/2.5/weather?lat=52.5&lon=13.4&units=imperial&appid=k"
    );
}

#[test]
fn stock_urls_name_symbol_and_token() {
    assert_eq!(
        stock_quote_url("BRK.B", "t&k").unwrap(),
        "https://finnhub.io/api/v1/quote?symbol=BRK.B&token=t%26k"
    );
    assert_eq!(
        stock_profile_url("AAPL", "t").unwrap(),
        "https://finnhub.io/api/v1/stock/profile2?symbol=AAPL&token=t"
    );
}

#[test]
fn open_meteo_request_and_conditions() {
    assert_eq!(
        open_meteo_url("https://api.open-meteo.com", "52.5", "13.4", None).unwrap(),
        "https://api.open-meteo.com/v1/forecast?latitude=52.5&longitude=13.4&current=temperature_2m%2Capparent_temperature%2Crelative_humidity_2m%2Cweather_code%2Cwind_speed_10m&daily=weather_code%2Ctemperature_2m_max%2Ctemperature_2m_min&forecast_days=5&temperature_unit=fahrenheit&wind_speed_unit=mph&timezone=auto"
    );
    assert!(open_meteo_url("https://customer-api.open-meteo.com", "1", "2", Some("k"))
        .unwrap()
        .ends_with("&timezone=auto&apikey=k"));
    assert!(open_meteo_url("https://api.open-meteo.com", "1", "2", Some("  "))
        .unwrap()
        .ends_with("&timezone=auto"));
    assert!(open_meteo_url("nowhere", "1", "2", None)
        .unwrap_err()
        .starts_with("Invalid Open-Meteo URL: "));
    assert_eq!(wmo_weather(0), ("clear sky".to_string(), "01d".to_string()));
    assert_eq!(wmo_weather(63), ("rain".to_string(), "10d".to_string()));
    assert_eq!(wmo_weather(99), ("thunderstorm".to_string(), "11d".to_string()));
    assert_eq!(wmo_weather(4), ("unknown".to_string(), "".to_string()));
}
