# event_timers

Verified core of a Guild Wars 2 event-timer overlay.

- `src/finished_events.rs`: the events marked finished for the current daily
  reset (00:00 UTC), with their model, the operations on it and the laws they obey.
- `src/time_utils.rs`: the Tyrian clock, `hh:mm` rendering, monotonic elapsed time.
- `src/gw2_api.rs`: the GW2 API id tables, marking the events a sync reports, its
  status text, and
  the automatic-sync decision.
- `src/game_state.rs`: decisions on MumbleLink values (competitive mode, hidden
  maps, loading/login screen detection).
- `app/`: the process-wide state behind locks, clocks, MumbleLink reads, HTTP
  requests and threads; it hands plain values to the library.
