use std::collections::HashSet;

use event_timers::finished_events::{
    export_finished, import_finished, is_event_finished, reset_day, set_event_finished,
    toggle_event_finished, FinishedEventsState, TrackedEventId,
};

const DAY: i64 = 86400;
// 2025-10-01 12:00:00 UTC
const NOON: i64 = 1759320000;

fn names(ids: &[TrackedEventId]) -> HashSet<(String, String)> {
    ids.iter().map(|id| (id.track.clone(), id.event.clone())).collect()
}

#[test]
fn reset_day_is_the_utc_calendar_day() {
    assert_eq!(reset_day(0), 0);
    assert_eq!(reset_day(86399), 0);
    assert_eq!(reset_day(86400), 1);
    assert_eq!(reset_day(-1), -1);
    assert_eq!(reset_day(-86400), -1);
    assert_eq!(reset_day(-86401), -2);
    assert_eq!(reset_day(NOON), 20362);
    assert_eq!(reset_day(i64::MIN), i64::MIN.div_euclid(86400));
    assert_eq!(reset_day(i64::MAX), i64::MAX / 86400);
}

#[test]
fn fresh_state_has_nothing_finished() {
    let mut state = FinishedEventsState::default();
    assert!(!is_event_finished(&mut state, "World Bosses", "Tequatl", NOON));
    let (entries, day) = export_finished(&mut state, NOON);
    assert!(entries.is_empty());
    assert_eq!(day, reset_day(NOON));
}

#[test]
fn set_then_query_same_day() {
    let mut state = FinishedEventsState::default();
    set_event_finished(&mut state, "World Bosses", "Tequatl", NOON);
    assert!(is_event_finished(&mut state, "World Bosses", "Tequatl", NOON));
    assert!(is_event_finished(&mut state, "World Bosses", "Tequatl", NOON + 3600));
    assert!(!is_event_finished(&mut state, "World Bosses", "The Shatterer", NOON));
    assert!(!is_event_finished(&mut state, "Hard World Bosses", "Tequatl", NOON));
}

#[test]
fn marks_clear_at_daily_reset() {
    let mut state = FinishedEventsState::default();
    let midnight = reset_day(NOON) * DAY + DAY;
    set_event_finished(&mut state, "World Bosses", "Tequatl", midnight - 1);
    toggle_event_finished(&mut state, "Amnytas", "The Defense of Amnytas", midnight - 1);
    assert!(is_event_finished(&mut state, "World Bosses", "Tequatl", midnight - 1));
    assert!(!is_event_finished(&mut state, "World Bosses", "Tequatl", midnight));
    assert!(!is_event_finished(&mut state, "Amnytas", "The Defense of Amnytas", midnight));
    // Going back in time to the earlier day does not bring the marks back.
    assert!(!is_event_finished(&mut state, "World Bosses", "Tequatl", midnight - 1));
}

#[test]
fn set_is_idempotent() {
    let mut state = FinishedEventsState::default();
    set_event_finished(&mut state, "World Bosses", "Tequatl", NOON);
    set_event_finished(&mut state, "World Bosses", "Tequatl", NOON + 10);
    let (entries, _) = export_finished(&mut state, NOON + 20);
    assert_eq!(entries.len(), 1);
    assert!(is_event_finished(&mut state, "World Bosses", "Tequatl", NOON + 30));
}

#[test]
fn toggle_flips_and_twice_restores() {
    let mut state = FinishedEventsState::default();
    set_event_finished(&mut state, "World Bosses", "Megadestroyer", NOON);
    toggle_event_finished(&mut state, "World Bosses", "Tequatl", NOON);
    assert!(is_event_finished(&mut state, "World Bosses", "Tequatl", NOON));
    toggle_event_finished(&mut state, "World Bosses", "Tequatl", NOON + 60);
    assert!(!is_event_finished(&mut state, "World Bosses", "Tequatl", NOON));
    let (entries, _) = export_finished(&mut state, NOON);
    let expected: HashSet<(String, String)> =
        [("World Bosses".to_string(), "Megadestroyer".to_string())].into_iter().collect();
    assert_eq!(names(&entries), expected);
}

#[test]
fn toggle_leaves_other_events_alone() {
    let mut state = FinishedEventsState::default();
    set_event_finished(&mut state, "World Bosses", "Megadestroyer", NOON);
    set_event_finished(&mut state, "World Bosses", "Tequatl", NOON);
    toggle_event_finished(&mut state, "World Bosses", "Tequatl", NOON);
    assert!(is_event_finished(&mut state, "World Bosses", "Megadestroyer", NOON));
    assert!(!is_event_finished(&mut state, "World Bosses", "Tequatl", NOON));
}

#[test]
fn query_changes_no_answer() {
    let mut state = FinishedEventsState::default();
    set_event_finished(&mut state, "World Bosses", "Tequatl", NOON);
    for _ in 0..3 {
        assert!(is_event_finished(&mut state, "World Bosses", "Tequatl", NOON + 5));
        assert!(!is_event_finished(&mut state, "World Bosses", "Megadestroyer", NOON + 5));
    }
}

#[test]
fn export_import_roundtrip() {
    let mut state = FinishedEventsState::default();
    set_event_finished(&mut state, "World Bosses", "Tequatl", NOON);
    set_event_finished(&mut state, "Amnytas", "The Defense of Amnytas", NOON);
    let (entries, day) = export_finished(&mut state, NOON);
    assert_eq!(day, reset_day(NOON));
    let before = names(&entries);

    let mut restored = FinishedEventsState::default();
    import_finished(&mut restored, entries, day, NOON + 100);
    assert!(is_event_finished(&mut restored, "World Bosses", "Tequatl", NOON + 100));
    assert!(is_event_finished(&mut restored, "Amnytas", "The Defense of Amnytas", NOON + 100));
    let (again, _) = export_finished(&mut restored, NOON + 200);
    assert_eq!(names(&again), before);
}

#[test]
fn stale_snapshot_is_discarded() {
    let mut state = FinishedEventsState::default();
    set_event_finished(&mut state, "World Bosses", "Megadestroyer", NOON);
    let entries = vec![TrackedEventId::new("World Bosses", "Tequatl")];
    import_finished(&mut state, entries, reset_day(NOON) - 1, NOON);
    assert!(!is_event_finished(&mut state, "World Bosses", "Tequatl", NOON));
    // The import replaces the state entirely, today's marks included.
    assert!(!is_event_finished(&mut state, "World Bosses", "Megadestroyer", NOON));
}

#[test]
fn import_of_duplicates_keeps_one_mark() {
    let mut state = FinishedEventsState::default();
    let entries = vec![
        TrackedEventId::new("World Bosses", "Tequatl"),
        TrackedEventId::new("World Bosses", "Tequatl"),
        TrackedEventId::new("World Bosses", "Megadestroyer"),
    ];
    import_finished(&mut state, entries, reset_day(NOON), NOON);
    let (entries, _) = export_finished(&mut state, NOON);
    assert_eq!(entries.len(), 2);
    toggle_event_finished(&mut state, "World Bosses", "Tequatl", NOON);
    assert!(!is_event_finished(&mut state, "World Bosses", "Tequatl", NOON));
}

#[test]
fn tracked_event_id_helpers() {
    let a = TrackedEventId::new("World Bosses", "Tequatl");
    let b = a.duplicate();
    assert_eq!(a, b);
    assert!(a.same_as(&b));
    assert!(!a.same_as(&TrackedEventId::new("World Bosses", "Tequatl ")));
    assert_eq!(a.track, "World Bosses");
    assert_eq!(a.event, "Tequatl");
}

#[test]
fn second_reset_check_in_a_day_keeps_marks() {
    let mut state = FinishedEventsState::default();
    set_event_finished(&mut state, "World Bosses", "Tequatl", NOON);
    let _ = export_finished(&mut state, NOON + 1);
    let _ = export_finished(&mut state, NOON + 2);
    assert!(is_event_finished(&mut state, "World Bosses", "Tequatl", NOON + 3));
}

#[test]
fn mark_holds_through_a_run_of_other_calls() {
    let mut state = FinishedEventsState::default();
    let midnight = reset_day(NOON) * DAY + DAY;
    set_event_finished(&mut state, "World Bosses", "Tequatl", NOON);
    toggle_event_finished(&mut state, "World Bosses", "Megadestroyer", NOON + 10);
    set_event_finished(&mut state, "Amnytas", "The Defense of Amnytas", NOON + 20);
    toggle_event_finished(&mut state, "World Bosses", "Megadestroyer", NOON + 30);
    let _ = is_event_finished(&mut state, "World Bosses", "The Shatterer", NOON + 40);
    let _ = export_finished(&mut state, midnight - 1);
    assert!(is_event_finished(&mut state, "World Bosses", "Tequatl", midnight - 1));
    assert!(!is_event_finished(&mut state, "World Bosses", "Tequatl", midnight));
}
