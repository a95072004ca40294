# Happy Wakey

A desktop dashboard for calendar, weather (Open-Meteo, with OpenWeather as fallback), markets, news and saved pages, with optional
Supabase sign-in and configuration sync.

- `src/` is the verified library: configuration sanitising and merging, start-up flag
  parsing, the reminder scheduler and its delivery ledger, calendar event mapping,
  normalisation and the daily agenda, news selection, request addresses for every service,
  and the PKCE sign-in steps. Each public function states its result in its contract, up to
  what the clock, the machine's time zone or chance decides; the laws of the library are
  public proof functions beside the code they speak of.
- `app/` is the program around it: the Qt/QML window, HTTP requests, files, the browser,
  the loopback listener and desktop notifications.
- `tests/` runs the library on concrete values.
