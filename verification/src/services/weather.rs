//! Current conditions from OpenWeather.
use vstd::prelude::*;

use crate::config::{
    LATITUDE_LIMIT_BITS, LONGITUDE_LIMIT_BITS, coordinate_within, is_coordinate_within,
};
use crate::supabase::result_view;
use crate::text::{chars_of, from_str, push_str, string_of, trim, trim_spec};
use crate::weburl::{pairs_view, url_with_query, url_with_query_result};

verus! {

/// Whether the coordinates, given as IEEE 754 bit patterns, are a latitude in [-90, 90] and a
/// longitude in [-180, 180] (so neither is infinite nor NaN).
pub open spec fn valid_coordinates_spec(lat_bits: u64, lon_bits: u64) -> bool {
    coordinate_within(lat_bits, LATITUDE_LIMIT_BITS) && coordinate_within(
        lon_bits,
        LONGITUDE_LIMIT_BITS,
    )
}

pub fn valid_coordinates(lat_bits: u64, lon_bits: u64) -> (r: bool)
    ensures
        r == valid_coordinates_spec(lat_bits, lon_bits),
{
    is_coordinate_within(lat_bits, LATITUDE_LIMIT_BITS) && is_coordinate_within(
        lon_bits,
        LONGITUDE_LIMIT_BITS,
    )
}

/// The query of a current-weather request in imperial units.
pub open spec fn weather_pairs(lat: Seq<char>, lon: Seq<char>, key: Seq<char>) -> Seq<
    (Seq<char>, Seq<char>),
> {
    seq![("lat"@, lat), ("lon"@, lon), ("units"@, "imperial"@), ("appid"@, key)]
}

pub open spec fn weather_url_spec(lat: Seq<char>, lon: Seq<char>, key: Seq<char>) -> Result<
    Seq<char>,
    Seq<char>,
> {
    match url_with_query_result(
        "https://api.openweathermap.org/data/2.5/weather"@,
        weather_pairs(lat, lon, key),
    ) {
        Ok(u) => Ok(u),
        Err(e) => Err("Invalid OpenWeather URL: "@ + e),
    }
}

/// The current-weather request for the coordinates written in decimal.
pub fn weather_url(lat: &str, lon: &str, api_key: &str) -> (r: Result<String, String>)
    ensures
        result_view(r) == weather_url_spec(lat@, lon@, api_key@),
{
    let mut pairs: Vec<(String, String)> = Vec::new();
    pairs.push((from_str("lat"), from_str(lat)));
    pairs.push((from_str("lon"), from_str(lon)));
    pairs.push((from_str("units"), from_str("imperial")));
    pairs.push((from_str("appid"), from_str(api_key)));
    assert(pairs_view(pairs@) =~= weather_pairs(lat@, lon@, api_key@));
    match url_with_query("https://api.openweathermap.org/data/2.5/weather", &pairs) {
        Ok(u) => Ok(u),
        Err(e) => {
            let mut msg = chars_of("Invalid OpenWeather URL: ");
            push_str(&mut msg, e.as_str());
            Err(string_of(&msg))
        },
    }
}

// ---------------------------------------------------------------------------
// Open-Meteo
// ---------------------------------------------------------------------------

/// The query of an Open-Meteo forecast: current conditions and five days, in Fahrenheit and
/// miles per hour like the OpenWeather request, times in the place's own zone; the customer
/// key, when one is set (non-blank), last.
pub open spec fn open_meteo_pairs(lat: Seq<char>, lon: Seq<char>, key: Option<Seq<char>>) -> Seq<
    (Seq<char>, Seq<char>),
> {
    let pairs = seq![
        ("latitude"@, lat),
        ("longitude"@, lon),
        (
            "current"@,
            "temperature_2m,apparent_temperature,relative_humidity_2m,weather_code,wind_speed_10m"@,
        ),
        ("daily"@, "weather_code,temperature_2m_max,temperature_2m_min"@),
        ("forecast_days"@, "5"@),
        ("temperature_unit"@, "fahrenheit"@),
        ("wind_speed_unit"@, "mph"@),
        ("timezone"@, "auto"@),
    ];
    match key {
        Some(k) => if trim_spec(k).len() > 0 {
            pairs.push(("apikey"@, k))
        } else {
            pairs
        },
        None => pairs,
    }
}

/// The forecast address under the Open-Meteo base address (`OPEN_METEO_BASE_URL`).
pub open spec fn open_meteo_url_spec(
    base: Seq<char>,
    lat: Seq<char>,
    lon: Seq<char>,
    key: Option<Seq<char>>,
) -> Result<Seq<char>, Seq<char>> {
    match url_with_query_result(base + "/v1/forecast"@, open_meteo_pairs(lat, lon, key)) {
        Ok(u) => Ok(u),
        Err(e) => Err("Invalid Open-Meteo URL: "@ + e),
    }
}

/// The Open-Meteo forecast request for the coordinates written in decimal.
pub fn open_meteo_url(base: &str, lat: &str, lon: &str, api_key: Option<&str>) -> (r: Result<
    String,
    String,
>)
    ensures
        result_view(r) == open_meteo_url_spec(
            base@,
            lat@,
            lon@,
            match api_key {
                Some(k) => Some(k@),
                None => None,
            },
        ),
{
    let mut pairs: Vec<(String, String)> = Vec::new();
    pairs.push((from_str("latitude"), from_str(lat)));
    pairs.push((from_str("longitude"), from_str(lon)));
    pairs.push(
        (
            from_str("current"),
            from_str(
                "temperature_2m,apparent_temperature,relative_humidity_2m,weather_code,wind_speed_10m",
            ),
        ),
    );
    pairs.push(
        (from_str("daily"), from_str("weather_code,temperature_2m_max,temperature_2m_min")),
    );
    pairs.push((from_str("forecast_days"), from_str("5")));
    pairs.push((from_str("temperature_unit"), from_str("fahrenheit")));
    pairs.push((from_str("wind_speed_unit"), from_str("mph")));
    pairs.push((from_str("timezone"), from_str("auto")));
    let ghost fixed = pairs_view(pairs@);
    match api_key {
        Some(k) => {
            if trim(&chars_of(k)).len() > 0 {
                pairs.push((from_str("apikey"), from_str(k)));
                assert(pairs_view(pairs@) =~= fixed.push(("apikey"@, k@)));
            }
        },
        None => {},
    }
    assert(pairs_view(pairs@) =~= open_meteo_pairs(
        lat@,
        lon@,
        match api_key {
            Some(k) => Some(k@),
            None => None,
        },
    ));
    let mut address = chars_of(base);
    push_str(&mut address, "/v1/forecast");
    match url_with_query(string_of(&address).as_str(), &pairs) {
        Ok(u) => Ok(u),
        Err(e) => {
            let mut msg = chars_of("Invalid Open-Meteo URL: ");
            push_str(&mut msg, e.as_str());
            Err(string_of(&msg))
        },
    }
}

/// The description and icon of a WMO weather code, as Open-Meteo reports conditions; the
/// icons are OpenWeather's, so that either source shows the same pictures.
pub open spec fn wmo_weather_spec(code: u32) -> (Seq<char>, Seq<char>) {
    if code == 0 {
        ("clear sky"@, "01d"@)
    } else if code == 1 {
        ("mainly clear"@, "02d"@)
    } else if code == 2 {
        ("partly cloudy"@, "03d"@)
    } else if code == 3 {
        ("overcast"@, "04d"@)
    } else if code == 45 || code == 48 {
        ("fog"@, "50d"@)
    } else if 51 <= code <= 57 {
        ("drizzle"@, "09d"@)
    } else if 61 <= code <= 67 {
        ("rain"@, "10d"@)
    } else if 71 <= code <= 77 {
        ("snow"@, "13d"@)
    } else if 80 <= code <= 82 {
        ("rain showers"@, "09d"@)
    } else if code == 85 || code == 86 {
        ("snow showers"@, "13d"@)
    } else if code == 95 || code == 96 || code == 99 {
        ("thunderstorm"@, "11d"@)
    } else {
        ("unknown"@, ""@)
    }
}

pub fn wmo_weather(code: u32) -> (r: (String, String))
    ensures
        (r.0@, r.1@) == wmo_weather_spec(code),
{
    let (d, i) = if code == 0 {
        ("clear sky", "01d")
    } else if code == 1 {
        ("mainly clear", "02d")
    } else if code == 2 {
        ("partly cloudy", "03d")
    } else if code == 3 {
        ("overcast", "04d")
    } else if code == 45 || code == 48 {
        ("fog", "50d")
    } else if 51 <= code && code <= 57 {
        ("drizzle", "09d")
    } else if 61 <= code && code <= 67 {
        ("rain", "10d")
    } else if 71 <= code && code <= 77 {
        ("snow", "13d")
    } else if 80 <= code && code <= 82 {
        ("rain showers", "09d")
    } else if code == 85 || code == 86 {
        ("snow showers", "13d")
    } else if code == 95 || code == 96 || code == 99 {
        ("thunderstorm", "11d")
    } else {
        ("unknown", "")
    };
    (from_str(d), from_str(i))
}

} // verus!
