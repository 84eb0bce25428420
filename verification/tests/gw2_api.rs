use event_timers::finished_events::{
    export_finished, is_event_finished, reset_day, set_event_finished, FinishedEventsState,
};
use event_timers::gw2_api::{
    apply_sync_results, complete_sync, is_blank, map_chest_events, maybe_auto_sync, world_boss_events,
};

const NOON: i64 = 1759320000;
const MINUTE: u128 = 60_000_000_000;

fn strings(ids: &[&str]) -> Vec<String> {
    ids.iter().map(|s| s.to_string()).collect()
}

#[test]
fn mapping_tables_hold_every_row() {
    let bosses = world_boss_events();
    assert_eq!(bosses.len(), 15);
    assert_eq!(bosses[0], ("admiral_taidha_covington", "World Bosses", "Admiral Taidha Covington"));
    assert_eq!(bosses[8], ("inquest_golem_mark_ii", "World Bosses", "Golem Mark II"));
    assert_eq!(bosses[14], ("mists_and_monsters_titans", "Janthir Syntri", "Of Mists and Monsters"));
    let chests = map_chest_events();
    assert_eq!(chests.len(), 16);
    assert_eq!(chests[2], ("convergence_heros_choice_chest", "Convergences", "Outer Nayos"));
    assert_eq!(chests[3], ("convergence_heros_choice_chest", "Convergences", "Mount Balrior"));
    assert_eq!(chests[15], ("verdant_brink_heros_choice_chest", "Verdant Brink", "Night Bosses"));
}

#[test]
fn sync_marks_reported_bosses_and_chests() {
    let mut state = FinishedEventsState::default();
    let bosses = strings(&["tequatl_the_sunless", "drakkar", "not_a_boss"]);
    let chests = strings(&["auric_basin_heros_choice_chest", "citadel_of_zakiros_heros_choice_chest"]);
    let marked = apply_sync_results(&mut state, &bosses, &chests, NOON);
    assert_eq!(marked, 3);
    assert!(is_event_finished(&mut state, "Hard World Bosses", "Tequatl", NOON));
    assert!(is_event_finished(&mut state, "Bjora Marches", "Champion of the Ice Dragon", NOON));
    assert!(is_event_finished(&mut state, "Auric Basin", "Battle in Tarir", NOON));
    let (entries, _) = export_finished(&mut state, NOON);
    assert_eq!(entries.len(), 3);
}

#[test]
fn convergence_chest_marks_both_maps() {
    let mut state = FinishedEventsState::default();
    let marked = apply_sync_results(
        &mut state,
        &Vec::new(),
        &strings(&["convergence_heros_choice_chest"]),
        NOON,
    );
    assert_eq!(marked, 2);
    assert!(is_event_finished(&mut state, "Convergences", "Outer Nayos", NOON));
    assert!(is_event_finished(&mut state, "Convergences", "Mount Balrior", NOON));
}

#[test]
fn repeated_ids_count_every_mark() {
    let mut state = FinishedEventsState::default();
    let bosses = strings(&["megadestroyer", "megadestroyer"]);
    let marked = apply_sync_results(&mut state, &bosses, &Vec::new(), NOON);
    assert_eq!(marked, 2);
    let (entries, _) = export_finished(&mut state, NOON);
    assert_eq!(entries.len(), 1);
}

#[test]
fn boss_ids_are_not_looked_up_among_chests() {
    let mut state = FinishedEventsState::default();
    let marked = apply_sync_results(
        &mut state,
        &strings(&["amnytas_heros_choice_chest"]),
        &strings(&["megadestroyer"]),
        NOON,
    );
    assert_eq!(marked, 0);
}

#[test]
fn sync_with_no_match_leaves_state_untouched() {
    let mut state = FinishedEventsState::default();
    set_event_finished(&mut state, "World Bosses", "Tequatl", NOON);
    // No match: not even the daily reset is applied, so yesterday's snapshot day stays.
    let next_day = NOON + 86400;
    let marked = apply_sync_results(&mut state, &strings(&["unknown"]), &Vec::new(), next_day);
    assert_eq!(marked, 0);
    assert!(is_event_finished(&mut state, "World Bosses", "Tequatl", NOON));
}

#[test]
fn sync_on_a_new_day_drops_yesterdays_marks() {
    let mut state = FinishedEventsState::default();
    set_event_finished(&mut state, "World Bosses", "Tequatl", NOON);
    let next_day = NOON + 86400;
    let marked = apply_sync_results(&mut state, &strings(&["the_shatterer"]), &Vec::new(), next_day);
    assert_eq!(marked, 1);
    let (entries, day) = export_finished(&mut state, next_day);
    assert_eq!(day, reset_day(next_day));
    assert_eq!(entries.len(), 1);
    assert_eq!(entries[0].event, "The Shatterer");
}

#[test]
fn blank_keys() {
    assert!(is_blank(""));
    assert!(is_blank("   "));
    assert!(is_blank("\t\n\r\u{0B}\u{0C}"));
    assert!(is_blank("\u{3000}\u{00A0}\u{2028}"));
    assert!(!is_blank(" key "));
    assert!(!is_blank("k"));
    assert!(!is_blank("\u{200B}"));
}

#[test]
fn auto_sync_needs_a_key() {
    assert_eq!(maybe_auto_sync("", None, 0, 5 * MINUTE), (None, false));
    assert_eq!(maybe_auto_sync("  \t", Some(0), 100 * MINUTE, 5 * MINUTE), (Some(0), false));
}

#[test]
fn first_auto_sync_runs_at_once() {
    assert_eq!(maybe_auto_sync("ABCD-1234", None, 42, 5 * MINUTE), (Some(42), true));
}

#[test]
fn auto_sync_waits_for_the_interval() {
    let start = 1_000;
    let (last, run) = maybe_auto_sync("ABCD-1234", None, start, 5 * MINUTE);
    assert!(run);
    let (last, run) = maybe_auto_sync("ABCD-1234", last, start + 5 * MINUTE - 1, 5 * MINUTE);
    assert!(!run);
    assert_eq!(last, Some(start));
    let (last, run) = maybe_auto_sync("ABCD-1234", last, start + 5 * MINUTE, 5 * MINUTE);
    assert!(run);
    assert_eq!(last, Some(start + 5 * MINUTE));
}

#[test]
fn auto_sync_clock_going_back_counts_as_no_time() {
    assert_eq!(maybe_auto_sync("key", Some(500), 100, 1), (Some(500), false));
    assert_eq!(maybe_auto_sync("key", Some(500), 100, 0), (Some(100), true));
}

#[test]
fn sync_status_reports_counts() {
    let mut state = FinishedEventsState::default();
    let bosses: Result<Vec<String>, String> = Ok(strings(&["tequatl_the_sunless", "unknown"]));
    let chests: Result<Vec<String>, String> = Ok(strings(&["convergence_heros_choice_chest"]));
    let status = complete_sync(&mut state, &bosses, &chests, NOON);
    assert_eq!(
        status,
        "GW2 API sync OK: 2 boss(es), 1 chest(s) reported by API, 3 event(s) marked finished."
    );
    assert!(is_event_finished(&mut state, "Convergences", "Mount Balrior", NOON));
}

#[test]
fn sync_status_with_many_ids() {
    let mut state = FinishedEventsState::default();
    let many: Vec<String> = (0..1234).map(|i| format!("id{}", i)).collect();
    let status = complete_sync(&mut state, &Ok(many), &Ok(Vec::new()), NOON);
    assert_eq!(
        status,
        "GW2 API sync OK: 1234 boss(es), 0 chest(s) reported by API, 0 event(s) marked finished."
    );
}

#[test]
fn sync_failure_reports_boss_error_first() {
    let mut state = FinishedEventsState::default();
    set_event_finished(&mut state, "World Bosses", "Tequatl", NOON);
    let status = complete_sync(
        &mut state,
        &Err("401 Unauthorized - invalid key".to_string()),
        &Err("timeout".to_string()),
        NOON,
    );
    assert_eq!(status, "GW2 API sync failed: 401 Unauthorized - invalid key");
    let status = complete_sync(
        &mut state,
        &Ok(strings(&["megadestroyer"])),
        &Err("timeout".to_string()),
        NOON,
    );
    assert_eq!(status, "GW2 API sync failed: timeout");
    // A failed sync marks nothing.
    assert!(!is_event_finished(&mut state, "World Bosses", "Megadestroyer", NOON));
    assert!(is_event_finished(&mut state, "World Bosses", "Tequatl", NOON));
}

#[test]
fn auto_syncs_over_a_run_keep_their_distance() {
    let interval = 5 * MINUTE;
    let mut last = None;
    let mut synced_at = Vec::new();
    for step in 0..40u128 {
        let now = step * MINUTE / 2;
        let (next, run) = maybe_auto_sync("ABCD-1234", last, now, interval);
        last = next;
        if run {
            synced_at.push(now);
        }
    }
    assert_eq!(synced_at, vec![0, 5 * MINUTE, 10 * MINUTE, 15 * MINUTE]);
    for pair in synced_at.windows(2) {
        assert!(pair[1] - pair[0] >= interval);
    }
}
