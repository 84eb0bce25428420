use vstd::prelude::*;

use crate::time_utils::{append_decimal, elapsed_since, spec_decimal, spec_elapsed};
use crate::finished_events::{
    law_sync_marks_exactly_reported, lemma_set_all_concat, set_event_finished, spec_is_finished,
    spec_set_all, EventKey, FinishedEventsState, FinishedModel,
};

verus! {

/// One row of a mapping table: the GW2 API id, then the track and event it stands for.
pub type ApiEventRow = (Seq<char>, Seq<char>, Seq<char>);

/// The rows of an executable mapping table, as character sequences.
pub open spec fn table_view(table: Seq<(&'static str, &'static str, &'static str)>) -> Seq<ApiEventRow> {
    table.map_values(|row: (&'static str, &'static str, &'static str)| (row.0@, row.1@, row.2@))
}

/// Maps a GW2 API world-boss id (from /v2/account/worldbosses) to the
/// (track, event) pair it represents in the event schedule.
pub open spec fn spec_world_boss_events() -> Seq<ApiEventRow> {
    seq![
        ("admiral_taidha_covington"@, "World Bosses"@, "Admiral Taidha Covington"@),
        ("svanir_shaman_chief"@, "World Bosses"@, "Svanir Shaman Chief"@),
        ("megadestroyer"@, "World Bosses"@, "Megadestroyer"@),
        ("shadow_behemoth"@, "World Bosses"@, "Shadow Behemoth"@),
        ("the_shatterer"@, "World Bosses"@, "The Shatterer"@),
        ("great_jungle_wurm"@, "World Bosses"@, "Great Jungle Wurm"@),
        ("modniir_ulgoth"@, "World Bosses"@, "Modniir Ulgoth"@),
        ("fire_elemental"@, "World Bosses"@, "Fire Elemental"@),
        ("inquest_golem_mark_ii"@, "World Bosses"@, "Golem Mark II"@),
        ("claw_of_jormag"@, "World Bosses"@, "Claw of Jormag"@),
        ("karka_queen"@, "Hard World Bosses"@, "Karka Queen"@),
        ("tequatl_the_sunless"@, "Hard World Bosses"@, "Tequatl"@),
        ("triple_trouble_wurm"@, "Hard World Bosses"@, "Triple Trouble"@),
        ("drakkar"@, "Bjora Marches"@, "Champion of the Ice Dragon"@),
        ("mists_and_monsters_titans"@, "Janthir Syntri"@, "Of Mists and Monsters"@),
    ]
}

/// Maps a GW2 API map-chest id (from /v2/account/mapchests) to the event that
/// grants it. Convergences rotate daily between two maps; only one is active per
/// day, so both are marked under the shared chest id.
pub open spec fn spec_map_chest_events() -> Seq<ApiEventRow> {
    seq![
        ("amnytas_heros_choice_chest"@, "Amnytas"@, "The Defense of Amnytas"@),
        ("auric_basin_heros_choice_chest"@, "Auric Basin"@, "Battle in Tarir"@),
        ("convergence_heros_choice_chest"@, "Convergences"@, "Outer Nayos"@),
        ("convergence_heros_choice_chest"@, "Convergences"@, "Mount Balrior"@),
        ("crystal_oasis_heros_choice_chest"@, "Crystal Oasis"@, "Casino Blitz"@),
        ("domain_of_vabbi_heros_choice_chest"@, "Domain of Vabbi"@, "Forged with Fire"@),
        ("dragons_end_heros_choice_chest"@, "Dragon's End"@, "The Battle for the Jade Sea"@),
        ("dragons_stand_heros_choice_chest"@, "Dragon's Stand"@, "Advancing on the Blighting Towers"@),
        ("echovald_wilds_heros_choice_chest"@, "The Echovald Wilds"@, "The Gang War of Echovald"@),
        ("elon_riverlands_heros_choice_chest"@, "Elon Riverlands"@, "Doppelganger"@),
        ("new_kaineng_city_heros_choice_chest"@, "New Kaineng City"@, "Kaineng Blackout"@),
        ("seitung_province_heros_choice_chest"@, "Seitung Province"@, "Aetherblade Assault"@),
        ("skywatch_archipelago_heros_choice_chest"@, "Skywatch Archipelago"@, "Unlocking the Wizard's Tower"@),
        ("tangled_depths_heros_choice_chest"@, "Tangled Depths"@, "King of the Jungle"@),
        ("the_desolation_heros_choice_chest"@, "The Desolation"@, "Maws of Torment"@),
        ("verdant_brink_heros_choice_chest"@, "Verdant Brink"@, "Night Bosses"@),
    ]
}

/// The world-boss mapping table.
pub fn world_boss_events() -> (table: Vec<(&'static str, &'static str, &'static str)>)
    ensures
        table_view(table@) == spec_world_boss_events(),
{
    let table = vec![
        ("admiral_taidha_covington", "World Bosses", "Admiral Taidha Covington"),
        ("svanir_shaman_chief", "World Bosses", "Svanir Shaman Chief"),
        ("megadestroyer", "World Bosses", "Megadestroyer"),
        ("shadow_behemoth", "World Bosses", "Shadow Behemoth"),
        ("the_shatterer", "World Bosses", "The Shatterer"),
        ("great_jungle_wurm", "World Bosses", "Great Jungle Wurm"),
        ("modniir_ulgoth", "World Bosses", "Modniir Ulgoth"),
        ("fire_elemental", "World Bosses", "Fire Elemental"),
        ("inquest_golem_mark_ii", "World Bosses", "Golem Mark II"),
        ("claw_of_jormag", "World Bosses", "Claw of Jormag"),
        ("karka_queen", "Hard World Bosses", "Karka Queen"),
        ("tequatl_the_sunless", "Hard World Bosses", "Tequatl"),
        ("triple_trouble_wurm", "Hard World Bosses", "Triple Trouble"),
        ("drakkar", "Bjora Marches", "Champion of the Ice Dragon"),
        ("mists_and_monsters_titans", "Janthir Syntri", "Of Mists and Monsters"),
    ];
    assert(table_view(table@) =~= spec_world_boss_events());
    table
}

/// The map-chest mapping table.
pub fn map_chest_events() -> (table: Vec<(&'static str, &'static str, &'static str)>)
    ensures
        table_view(table@) == spec_map_chest_events(),
{
    let table = vec![
        ("amnytas_heros_choice_chest", "Amnytas", "The Defense of Amnytas"),
        ("auric_basin_heros_choice_chest", "Auric Basin", "Battle in Tarir"),
        ("convergence_heros_choice_chest", "Convergences", "Outer Nayos"),
        ("convergence_heros_choice_chest", "Convergences", "Mount Balrior"),
        ("crystal_oasis_heros_choice_chest", "Crystal Oasis", "Casino Blitz"),
        ("domain_of_vabbi_heros_choice_chest", "Domain of Vabbi", "Forged with Fire"),
        ("dragons_end_heros_choice_chest", "Dragon's End", "The Battle for the Jade Sea"),
        ("dragons_stand_heros_choice_chest", "Dragon's Stand", "Advancing on the Blighting Towers"),
        ("echovald_wilds_heros_choice_chest", "The Echovald Wilds", "The Gang War of Echovald"),
        ("elon_riverlands_heros_choice_chest", "Elon Riverlands", "Doppelganger"),
        ("new_kaineng_city_heros_choice_chest", "New Kaineng City", "Kaineng Blackout"),
        ("seitung_province_heros_choice_chest", "Seitung Province", "Aetherblade Assault"),
        ("skywatch_archipelago_heros_choice_chest", "Skywatch Archipelago", "Unlocking the Wizard's Tower"),
        ("tangled_depths_heros_choice_chest", "Tangled Depths", "King of the Jungle"),
        ("the_desolation_heros_choice_chest", "The Desolation", "Maws of Torment"),
        ("verdant_brink_heros_choice_chest", "Verdant Brink", "Night Bosses"),
    ];
    assert(table_view(table@) =~= spec_map_chest_events());
    table
}

/// The character sequences of a list of strings.
pub open spec fn string_views(ids: Seq<String>) -> Seq<Seq<char>> {
    ids.map_values(|id: String| id@)
}

/// The events that one reported id stands for, in table order.
pub open spec fn spec_row_matches(id: Seq<char>, table: Seq<ApiEventRow>) -> Seq<EventKey>
    decreases table.len(),
{
    if table.len() == 0 {
        Seq::empty()
    } else {
        let earlier = spec_row_matches(id, table.drop_last());
        if table.last().0 == id {
            earlier.push((table.last().1, table.last().2))
        } else {
            earlier
        }
    }
}

/// The events that a list of reported ids stands for, id by id, each in table order.
pub open spec fn spec_all_matches(ids: Seq<Seq<char>>, table: Seq<ApiEventRow>) -> Seq<EventKey>
    decreases ids.len(),
{
    if ids.len() == 0 {
        Seq::empty()
    } else {
        spec_all_matches(ids.drop_last(), table) + spec_row_matches(ids.last(), table)
    }
}

/// The events a sync marks: those of the reported world bosses, then those of the
/// reported map chests.
pub open spec fn spec_sync_marks(bosses: Seq<Seq<char>>, chests: Seq<Seq<char>>) -> Seq<EventKey> {
    spec_all_matches(bosses, spec_world_boss_events()) + spec_all_matches(chests, spec_map_chest_events())
}

proof fn lemma_row_matches_len(id: Seq<char>, table: Seq<ApiEventRow>)
    ensures
        spec_row_matches(id, table).len() <= table.len(),
    decreases table.len(),
{
    if table.len() > 0 {
        lemma_row_matches_len(id, table.drop_last());
    }
}

/// Marks, at time `now`, every event that one of `ids` stands for in `table`, and
/// adds the number of marks made to `marked`.
fn mark_reported(
    state: &mut FinishedEventsState,
    ids: &Vec<String>,
    table: &Vec<(&'static str, &'static str, &'static str)>,
    now: i64,
    marked: usize,
) -> (total: usize)
    requires
        marked + ids.len() * table.len() <= usize::MAX,
    ensures
        total == marked + spec_all_matches(string_views(ids@), table_view(table@)).len(),
        final(state)@ == spec_set_all(old(state)@, spec_all_matches(string_views(ids@), table_view(table@)), now as int),
{
    let ghost tv = table_view(table@);
    let ghost views = string_views(ids@);
    let n: usize = ids.len();
    let tlen: usize = table.len();
    let mut count: usize = marked;
    let mut i: usize = 0;
    while i < n
        invariant
            n == ids.len(),
            tlen == table.len(),
            tv == table_view(table@),
            views == string_views(ids@),
            i <= n,
            marked + n * tlen <= usize::MAX,
            spec_all_matches(views.take(i as int), tv).len() <= i * tlen,
            count == marked + spec_all_matches(views.take(i as int), tv).len(),
            state@ == spec_set_all(old(state)@, spec_all_matches(views.take(i as int), tv), now as int),
        decreases n - i,
    {
        let ghost done = spec_all_matches(views.take(i as int), tv);
        let id: &String = &ids[i];
        let mut j: usize = 0;
        while j < tlen
            invariant
                n == ids.len(),
                tlen == table.len(),
                tv == table_view(table@),
                views == string_views(ids@),
                i < n,
                j <= tlen,
                id@ == views[i as int],
                marked + n * tlen <= usize::MAX,
                done.len() <= i * tlen,
                spec_row_matches(id@, tv.take(j as int)).len() <= j,
                count == marked + done.len() + spec_row_matches(id@, tv.take(j as int)).len(),
                state@ == spec_set_all(old(state)@, done + spec_row_matches(id@, tv.take(j as int)), now as int),
            decreases tlen - j,
        {
            let row = table[j];
            let api_id: String = row.0.to_owned();
            let ghost before = spec_row_matches(id@, tv.take(j as int));
            proof {
                assert(tv.take(j + 1).drop_last() =~= tv.take(j as int));
                assert(tv.take(j + 1).last() == tv[j as int]);
                assert(tv[j as int] == (row.0@, row.1@, row.2@));
                assert((i + 1) * tlen == i * tlen + tlen) by (nonlinear_arith);
                assert((i + 1) * tlen <= n * tlen) by (nonlinear_arith)
                    requires
                        i + 1 <= n,
                ;
            }
            if *id == api_id {
                set_event_finished(state, row.1, row.2, now);
                count = count + 1;
                proof {
                    assert((done + before).push((row.1@, row.2@)) =~= done + before.push((row.1@, row.2@)));
                    assert((done + before.push((row.1@, row.2@))).drop_last() =~= done + before);
                }
            }
            j = j + 1;
        }
        proof {
            assert(tv.take(tlen as int) =~= tv);
            assert(views.take(i + 1).drop_last() =~= views.take(i as int));
            assert(views.take(i + 1).last() == id@);
            lemma_row_matches_len(id@, tv);
            assert((i + 1) * tlen == i * tlen + tlen) by (nonlinear_arith);
        }
        i = i + 1;
    }
    proof {
        assert(views.take(n as int) =~= views);
    }
    count
}

/// Marks finished, at time `now`, every event that the world-boss and map-chest ids
/// reported by the GW2 API stand for, and returns the number of marks made (an
/// event listed under two reported ids counts twice).
pub fn apply_sync_results(
    state: &mut FinishedEventsState,
    bosses: &Vec<String>,
    chests: &Vec<String>,
    now: i64,
) -> (marked: usize)
    requires
        (bosses.len() + chests.len()) * 16 <= usize::MAX,
    ensures
        marked == spec_sync_marks(string_views(bosses@), string_views(chests@)).len(),
        final(state)@ == spec_set_all(old(state)@, spec_sync_marks(string_views(bosses@), string_views(chests@)), now as int),
{
    let boss_table = world_boss_events();
    let chest_table = map_chest_events();
    proof {
        assert(boss_table.len() == 15);
        assert(chest_table.len() == 16);
        assert(bosses.len() * 15 <= bosses.len() * 16) by (nonlinear_arith);
        assert((bosses.len() + chests.len()) * 16 == bosses.len() * 16 + chests.len() * 16) by (nonlinear_arith);
    }
    let marked: usize = mark_reported(state, bosses, &boss_table, now, 0);
    proof {
        lemma_all_matches_len(string_views(bosses@), spec_world_boss_events());
        assert(string_views(bosses@).len() * 15 == bosses.len() * 15);
    }
    let marked: usize = mark_reported(state, chests, &chest_table, now, marked);
    proof {
        lemma_set_all_concat(
            old(state)@,
            spec_all_matches(string_views(bosses@), spec_world_boss_events()),
            spec_all_matches(string_views(chests@), spec_map_chest_events()),
            now as int,
        );
    }
    marked
}

proof fn lemma_all_matches_len(ids: Seq<Seq<char>>, table: Seq<ApiEventRow>)
    ensures
        spec_all_matches(ids, table).len() <= ids.len() * table.len(),
    decreases ids.len(),
{
    if ids.len() > 0 {
        lemma_all_matches_len(ids.drop_last(), table);
        lemma_row_matches_len(ids.last(), table);
        assert(ids.len() * table.len() == (ids.len() - 1) * table.len() + table.len()) by (nonlinear_arith);
    }
}

/// Whether `c` has the Unicode White_Space property, the set of characters that
/// `char::is_whitespace` accepts and `str::trim` strips.
pub open spec fn is_white_space(c: char) -> bool {
    let u = c as u32;
    ||| 0x09 <= u <= 0x0D
    ||| u == 0x20
    ||| u == 0x85
    ||| u == 0xA0
    ||| u == 0x1680
    ||| 0x2000 <= u <= 0x200A
    ||| u == 0x2028
    ||| u == 0x2029
    ||| u == 0x202F
    ||| u == 0x205F
    ||| u == 0x3000
}

/// Whether the text holds nothing but whitespace (the empty text included).
pub open spec fn spec_is_blank(s: Seq<char>) -> bool {
    forall|i: int| 0 <= i < s.len() ==> is_white_space(#[trigger] s[i])
}

/// `trimmed` is what is left of `s` between positions `a` and `b`: everything before
/// `a` and from `b` on is White_Space, and when anything is left it neither begins
/// nor ends with White_Space.
pub open spec fn trim_bounds(s: Seq<char>, trimmed: Seq<char>, a: int, b: int) -> bool {
    &&& 0 <= a <= b <= s.len()
    &&& trimmed == s.subrange(a, b)
    &&& forall|i: int| 0 <= i < a ==> is_white_space(#[trigger] s[i])
    &&& forall|i: int| b <= i < s.len() ==> is_white_space(#[trigger] s[i])
    &&& a < b ==> !is_white_space(s[a]) && !is_white_space(s[b - 1])
}

/// `str::trim`. The contract states what its documentation gives: the result is
/// the part of `s` left between a leading and a trailing run of White_Space
/// characters, and when it is not empty it neither begins nor ends with one.
#[verifier::external_body]
fn trim(s: &str) -> (trimmed: &str)
    ensures
        exists|ends: (int, int)| trim_bounds(s@, trimmed@, ends.0, ends.1),
{
    s.trim()
}

/// Whether an API key is blank: `api_key.trim().is_empty()`.
pub fn is_blank(api_key: &str) -> (blank: bool)
    ensures
        blank == spec_is_blank(api_key@),
{
    let trimmed = trim(api_key);
    let blank = trimmed.is_empty();
    proof {
        let ends = choose|ends: (int, int)| trim_bounds(api_key@, trimmed@, ends.0, ends.1);
        let a = ends.0;
        let b = ends.1;
        if !blank {
            assert(trimmed@.len() == b - a);
            assert(!is_white_space(api_key@[a]));
        }
    }
    blank
}

/// Whether an automatic sync is due at `now`: the API key is not blank, and either
/// no automatic sync was attempted yet or `interval` has passed since the last one.
pub open spec fn spec_auto_sync_due(api_key: Seq<char>, last_auto_sync: Option<u128>, now: int, interval: int) -> bool {
    &&& !spec_is_blank(api_key)
    &&& match last_auto_sync {
        Some(t) => spec_elapsed(t as int, now) >= interval,
        None => true,
    }
}

/// Decides, at `now` (nanoseconds on a monotonic clock), whether the periodic
/// background check performs an API sync. Returns the time of the last automatic
/// attempt to keep (now, when a sync is due) and whether to sync.
pub fn maybe_auto_sync(api_key: &str, last_auto_sync: Option<u128>, now: u128, interval: u128) -> (step: (
    Option<u128>,
    bool,
))
    ensures
        step.1 == spec_auto_sync_due(api_key@, last_auto_sync, now as int, interval as int),
        step.0 == (if step.1 {
            Some(now)
        } else {
            last_auto_sync
        }),
{
    if is_blank(api_key) {
        return (last_auto_sync, false);
    }
    let due = match last_auto_sync {
        Some(t) => elapsed_since(t, now) >= interval,
        None => true,
    };
    if !due {
        return (last_auto_sync, false);
    }
    (Some(now), true)
}

/// With a blank API key no automatic sync ever runs; with another key the first
/// check always syncs.
pub proof fn law_auto_sync_needs_key(api_key: Seq<char>, last_auto_sync: Option<u128>, now: int, interval: int)
    ensures
        spec_is_blank(api_key) ==> !spec_auto_sync_due(api_key, last_auto_sync, now, interval),
        !spec_is_blank(api_key) ==> spec_auto_sync_due(api_key, None, now, interval),
{
}

/// After an automatic sync at `synced_at`, the next one is due exactly once
/// `interval` has passed.
pub proof fn law_auto_sync_waits_for_interval(api_key: Seq<char>, synced_at: u128, later: int, interval: int)
    requires
        !spec_is_blank(api_key),
        later >= synced_at,
    ensures
        spec_auto_sync_due(api_key, Some(synced_at), later, interval) == (later - synced_at >= interval),
{
}

/// One periodic auto-sync check: the API key it sees, when it runs (nanoseconds
/// on a monotonic clock), and the interval in force.
pub struct AutoSyncCall {
    pub api_key: Seq<char>,
    pub now: u128,
    pub interval: u128,
}

/// One check: the time of the last automatic sync to keep, and whether it syncs.
pub open spec fn spec_auto_sync_step(last_auto_sync: Option<u128>, call: AutoSyncCall) -> (Option<u128>, bool) {
    let due = spec_auto_sync_due(call.api_key, last_auto_sync, call.now as int, call.interval as int);
    (if due { Some(call.now) } else { last_auto_sync }, due)
}

/// The time of the last automatic sync kept after a run of checks, when nothing
/// else writes it.
pub open spec fn spec_last_auto_sync_after(start: Option<u128>, calls: Seq<AutoSyncCall>) -> Option<u128>
    decreases calls.len(),
{
    if calls.len() == 0 {
        start
    } else {
        spec_auto_sync_step(spec_last_auto_sync_after(start, calls.drop_last()), calls.last()).0
    }
}

/// Whether check `k` of a run syncs.
pub open spec fn spec_call_syncs(start: Option<u128>, calls: Seq<AutoSyncCall>, k: int) -> bool {
    spec_auto_sync_step(spec_last_auto_sync_after(start, calls.take(k)), calls[k]).1
}

proof fn lemma_last_sync_since(start: Option<u128>, calls: Seq<AutoSyncCall>, j: int, k: int)
    requires
        0 <= j < k <= calls.len(),
        forall|a: int, b: int| 0 <= a <= b < calls.len() ==> #[trigger] calls[a].now <= #[trigger] calls[b].now,
        spec_call_syncs(start, calls, j),
    ensures
        spec_last_auto_sync_after(start, calls.take(k)) matches Some(x) && calls[j].now <= x <= calls[k - 1].now,
    decreases k - j,
{
    if k == j + 1 {
        assert(calls.take(k).drop_last() =~= calls.take(j));
        assert(calls.take(k).last() == calls[j]);
    } else {
        lemma_last_sync_since(start, calls, j, k - 1);
        assert(calls.take(k).drop_last() =~= calls.take(k - 1));
        assert(calls.take(k).last() == calls[k - 1]);
        assert(calls[k - 2].now <= calls[k - 1].now);
    }
}

/// Automatic syncs are never closer together than the interval in force: over any
/// run of checks on a monotonic clock, where nothing else writes the time of the
/// last automatic sync, two checks that both sync lie at least the later check's
/// interval apart.
pub proof fn law_auto_syncs_respect_interval(start: Option<u128>, calls: Seq<AutoSyncCall>, j: int, k: int)
    requires
        0 <= j < k < calls.len(),
        forall|a: int, b: int| 0 <= a <= b < calls.len() ==> #[trigger] calls[a].now <= #[trigger] calls[b].now,
        spec_call_syncs(start, calls, j),
        spec_call_syncs(start, calls, k),
    ensures
        calls[k].now - calls[j].now >= calls[k].interval,
{
    lemma_last_sync_since(start, calls, j, k);
    assert(calls[k - 1].now <= calls[k].now);
}

/// The status text of a sync that fetched both lists.
pub open spec fn spec_sync_ok_text(bosses: nat, chests: nat, marked: nat) -> Seq<char> {
    "GW2 API sync OK: "@ + spec_decimal(bosses) + " boss(es), "@ + spec_decimal(chests)
        + " chest(s) reported by API, "@ + spec_decimal(marked) + " event(s) marked finished."@
}

/// The status text of a sync whose fetch failed with `error`.
pub open spec fn spec_sync_failed_text(error: Seq<char>) -> Seq<char> {
    "GW2 API sync failed: "@ + error
}

/// Finishes a sync once both fetches have returned, at time `now`, and gives the
/// status text to show. When a fetch failed, nothing is marked and the text
/// reports the error of the world-boss fetch if that one failed, else the error
/// of the map-chest fetch. Otherwise the reported events are marked as
/// `apply_sync_results` does and the text gives the counts.
pub fn complete_sync(
    state: &mut FinishedEventsState,
    bosses: &Result<Vec<String>, String>,
    chests: &Result<Vec<String>, String>,
    now: i64,
) -> (status: String)
    requires
        match (bosses, chests) {
            (Ok(b), Ok(c)) => (b.len() + c.len()) * 16 <= usize::MAX,
            _ => true,
        },
    ensures
        match bosses {
            Err(e) => status@ == spec_sync_failed_text(e@) && final(state)@ == old(state)@,
            Ok(b) => match chests {
                Err(e) => status@ == spec_sync_failed_text(e@) && final(state)@ == old(state)@,
                Ok(c) => {
                    let marks = spec_sync_marks(string_views(b@), string_views(c@));
                    &&& final(state)@ == spec_set_all(old(state)@, marks, now as int)
                    &&& status@ == spec_sync_ok_text(b.len() as nat, c.len() as nat, marks.len())
                },
            },
        },
{
    let (b, c) = match (bosses, chests) {
        (Ok(b), Ok(c)) => (b, c),
        (Err(e), _) | (_, Err(e)) => {
            let mut text = String::from_str("GW2 API sync failed: ");
            text.append(e.as_str());
            return text;
        },
    };
    let marked: usize = apply_sync_results(state, b, c, now);
    let mut text = String::from_str("GW2 API sync OK: ");
    append_decimal(&mut text, b.len());
    text.append(" boss(es), ");
    append_decimal(&mut text, c.len());
    text.append(" chest(s) reported by API, ");
    append_decimal(&mut text, marked);
    text.append(" event(s) marked finished.");
    text
}

/// `ks` lists, in increasing order, exactly the positions of the rows of `table`
/// whose API id is `id`.
pub open spec fn matching_rows(table: Seq<ApiEventRow>, id: Seq<char>, ks: Seq<int>) -> bool {
    &&& forall|i: int| 0 <= i < ks.len() ==> 0 <= #[trigger] ks[i] < table.len() && table[ks[i]].0 == id
    &&& forall|i: int, j: int| 0 <= i < j < ks.len() ==> #[trigger] ks[i] < #[trigger] ks[j]
    &&& forall|k: int| 0 <= k < table.len() && #[trigger] table[k].0 == id ==> ks.contains(k)
}

proof fn lemma_row_match_positions(id: Seq<char>, table: Seq<ApiEventRow>) -> (ks: Seq<int>)
    ensures
        matching_rows(table, id, ks),
        spec_row_matches(id, table).len() == ks.len(),
        forall|i: int| 0 <= i < ks.len() ==> #[trigger] spec_row_matches(id, table)[i] == (table[ks[i]].1, table[ks[i]].2),
    decreases table.len(),
{
    if table.len() == 0 {
        Seq::empty()
    } else {
        let earlier = table.drop_last();
        let n = table.len() - 1;
        let ks0 = lemma_row_match_positions(id, earlier);
        assert forall|k: int| 0 <= k < n implies #[trigger] table[k] == earlier[k] by {}
        if table.last().0 == id {
            let ks = ks0.push(n);
            assert forall|k: int| 0 <= k < table.len() && #[trigger] table[k].0 == id implies ks.contains(k) by {
                if k < n {
                    assert(earlier[k].0 == id);
                    let i = choose|i: int| 0 <= i < ks0.len() && ks0[i] == k;
                    assert(ks[i] == k);
                } else {
                    assert(ks[ks0.len() as int] == k);
                }
            }
            assert forall|i: int| 0 <= i < ks.len() implies 0 <= #[trigger] ks[i] < table.len() && table[ks[i]].0 == id by {
                if i < ks0.len() {
                    assert(table[ks0[i]] == earlier[ks0[i]]);
                }
            }
            assert forall|i: int| 0 <= i < ks.len() implies #[trigger] spec_row_matches(id, table)[i] == (table[ks[i]].1, table[ks[i]].2) by {
                if i < ks0.len() {
                    assert(table[ks0[i]] == earlier[ks0[i]]);
                }
            }
            ks
        } else {
            assert forall|k: int| 0 <= k < table.len() && #[trigger] table[k].0 == id implies ks0.contains(k) by {
                assert(k < n);
                assert(earlier[k].0 == id);
            }
            assert forall|i: int| 0 <= i < ks0.len() implies 0 <= #[trigger] ks0[i] < table.len() && table[ks0[i]].0 == id by {
                assert(table[ks0[i]] == earlier[ks0[i]]);
            }
            assert forall|i: int| 0 <= i < ks0.len() implies #[trigger] spec_row_matches(id, table)[i] == (table[ks0[i]].1, table[ks0[i]].2) by {
                assert(table[ks0[i]] == earlier[ks0[i]]);
            }
            ks0
        }
    }
}

/// The events one reported id stands for are exactly the rows of the table with
/// that API id, each once, in table order: their count is the number of such rows,
/// and every such row is among them.
pub proof fn law_row_matches_are_the_matching_rows(id: Seq<char>, table: Seq<ApiEventRow>)
    ensures
        exists|ks: Seq<int>|
            {
                &&& matching_rows(table, id, ks)
                &&& spec_row_matches(id, table).len() == ks.len()
                &&& forall|i: int| 0 <= i < ks.len() ==> #[trigger] spec_row_matches(id, table)[i] == (table[ks[i]].1, table[ks[i]].2)
            },
        forall|k: int| 0 <= k < table.len() && #[trigger] table[k].0 == id ==> spec_row_matches(id, table).contains((table[k].1, table[k].2)),
{
    let ks = lemma_row_match_positions(id, table);
    assert forall|k: int| 0 <= k < table.len() && #[trigger] table[k].0 == id implies spec_row_matches(id, table).contains((table[k].1, table[k].2)) by {
        let i = choose|i: int| 0 <= i < ks.len() && ks[i] == k;
        assert(spec_row_matches(id, table)[i] == (table[k].1, table[k].2));
    }
}

proof fn lemma_all_matches_contains(ids: Seq<Seq<char>>, table: Seq<ApiEventRow>, i: int, k: int)
    requires
        0 <= i < ids.len(),
        0 <= k < table.len(),
        table[k].0 == ids[i],
    ensures
        spec_all_matches(ids, table).contains((table[k].1, table[k].2)),
    decreases ids.len(),
{
    let x = (table[k].1, table[k].2);
    let earlier = ids.drop_last();
    let before = spec_all_matches(earlier, table);
    let row = spec_row_matches(ids.last(), table);
    if i < ids.len() - 1 {
        assert(earlier[i] == ids[i]);
        lemma_all_matches_contains(earlier, table, i, k);
        let idx = choose|idx: int| 0 <= idx < before.len() && before[idx] == x;
        assert((before + row)[idx] == x);
    } else {
        law_row_matches_are_the_matching_rows(ids.last(), table);
        assert(row.contains(x));
        let idx = choose|idx: int| 0 <= idx < row.len() && row[idx] == x;
        assert((before + row)[before.len() + idx] == x);
    }
}

/// After a sync at `t`, every event whose row's API id was reported (a world boss
/// among the reported bosses, or a map chest among the reported chests) counts as
/// finished at `t`.
pub proof fn law_sync_marks_every_reported_row(m: FinishedModel, bosses: Seq<Seq<char>>, chests: Seq<Seq<char>>, t: int)
    ensures
        forall|i: int, k: int|
            #![trigger bosses[i], spec_world_boss_events()[k]]
            0 <= i < bosses.len() && 0 <= k < spec_world_boss_events().len() && spec_world_boss_events()[k].0 == bosses[i]
                ==> spec_is_finished(
                spec_set_all(m, spec_sync_marks(bosses, chests), t),
                (spec_world_boss_events()[k].1, spec_world_boss_events()[k].2),
                t,
            ),
        forall|i: int, k: int|
            #![trigger chests[i], spec_map_chest_events()[k]]
            0 <= i < chests.len() && 0 <= k < spec_map_chest_events().len() && spec_map_chest_events()[k].0 == chests[i]
                ==> spec_is_finished(
                spec_set_all(m, spec_sync_marks(bosses, chests), t),
                (spec_map_chest_events()[k].1, spec_map_chest_events()[k].2),
                t,
            ),
{
    let bt = spec_world_boss_events();
    let ct = spec_map_chest_events();
    let a = spec_all_matches(bosses, bt);
    let b = spec_all_matches(chests, ct);
    let marks = spec_sync_marks(bosses, chests);
    assert forall|i: int, k: int|
        #![trigger bosses[i], bt[k]]
        0 <= i < bosses.len() && 0 <= k < bt.len() && bt[k].0 == bosses[i]
        implies spec_is_finished(spec_set_all(m, marks, t), (bt[k].1, bt[k].2), t) by {
        lemma_all_matches_contains(bosses, bt, i, k);
        let idx = choose|idx: int| 0 <= idx < a.len() && a[idx] == (bt[k].1, bt[k].2);
        assert(marks[idx] == (bt[k].1, bt[k].2));
        assert(marks.contains((bt[k].1, bt[k].2)));
        law_sync_marks_exactly_reported(m, marks, t);
    }
    assert forall|i: int, k: int|
        #![trigger chests[i], ct[k]]
        0 <= i < chests.len() && 0 <= k < ct.len() && ct[k].0 == chests[i]
        implies spec_is_finished(spec_set_all(m, marks, t), (ct[k].1, ct[k].2), t) by {
        lemma_all_matches_contains(chests, ct, i, k);
        let idx = choose|idx: int| 0 <= idx < b.len() && b[idx] == (ct[k].1, ct[k].2);
        assert(marks[a.len() + idx] == (ct[k].1, ct[k].2));
        assert(marks.contains((ct[k].1, ct[k].2)));
        law_sync_marks_exactly_reported(m, marks, t);
    }
}

/// Reporting one more id adds exactly the events that id stands for, after the
/// earlier ones; with no id reported nothing is marked.
pub proof fn law_all_matches_grow_by_one_id(ids: Seq<Seq<char>>, id: Seq<char>, table: Seq<ApiEventRow>)
    ensures
        spec_all_matches(Seq::empty(), table) == Seq::<EventKey>::empty(),
        spec_all_matches(ids.push(id), table) == spec_all_matches(ids, table) + spec_row_matches(id, table),
{
    assert(ids.push(id).drop_last() =~= ids);
}

/// Every event a list of reported ids stands for comes from a row of the table
/// whose API id is one of the reported ids.
pub proof fn law_all_matches_come_from_reported_rows(ids: Seq<Seq<char>>, table: Seq<ApiEventRow>)
    ensures
        forall|x: EventKey|
            spec_all_matches(ids, table).contains(x) ==> exists|i: int, k: int|
                0 <= i < ids.len() && 0 <= k < table.len() && #[trigger] table[k].0 == #[trigger] ids[i] && x == (table[k].1, table[k].2),
    decreases ids.len(),
{
    if ids.len() > 0 {
        let earlier = ids.drop_last();
        law_all_matches_come_from_reported_rows(earlier, table);
        let before = spec_all_matches(earlier, table);
        let row = spec_row_matches(ids.last(), table);
        let ks = lemma_row_match_positions(ids.last(), table);
        assert forall|x: EventKey| spec_all_matches(ids, table).contains(x) implies exists|i: int, k: int|
            0 <= i < ids.len() && 0 <= k < table.len() && #[trigger] table[k].0 == #[trigger] ids[i] && x == (table[k].1, table[k].2) by {
            let idx = choose|idx: int| 0 <= idx < (before + row).len() && (before + row)[idx] == x;
            if idx < before.len() {
                assert(before[idx] == x);
                assert(before.contains(x));
                let (i, k) = choose|i: int, k: int|
                    0 <= i < earlier.len() && 0 <= k < table.len() && #[trigger] table[k].0 == #[trigger] earlier[i] && x == (table[k].1, table[k].2);
                assert(ids[i] == earlier[i]);
            } else {
                let j = idx - before.len();
                assert(row[j] == x);
                let k = ks[j];
                assert(row[j] == (table[k].1, table[k].2));
                assert(table[k].0 == ids[ids.len() - 1]);
                assert(x == (table[k].1, table[k].2));
            }
        }
    }
}

} // verus!
