//! The data services: calendars, weather, markets and news.
pub mod calendar;
pub mod news;
pub mod stocks;
pub mod weather;
