use vstd::prelude::*;

use crate::time_utils::{elapsed_since, spec_elapsed};

verus! {

/// Bit of the MumbleLink `uiState` field that the game sets while the player is
/// in a competitive mode (PvP or WvW).
pub const UI_STATE_IS_IN_COMPETITIVE_MODE: u32 = 0x10;

/// MumbleLink `mapType` of Obsidian Sanctum.
pub const MAP_TYPE_WVW_OBSIDIAN_SANCTUM: u32 = 14;

/// MumbleLink `mapType` of Edge of the Mists.
pub const MAP_TYPE_WVW_EDGE_OF_THE_MISTS: u32 = 15;

/// MumbleLink `mapType` of Armistice Bastion (the WvW lounge).
pub const MAP_TYPE_WVW_LOUNGE: u32 = 18;

/// How long the MumbleLink `uiTick` must stay unchanged before the game counts as
/// being on a loading screen (the game stops updating MumbleLink while a map
/// loads, so the tick visibly stalls), in nanoseconds.
pub const LOADING_STALL_THRESHOLD_NANOS: u128 = 500_000_000;

/// Whether the game reports being in a competitive mode (PvP or WvW), given the
/// `uiState` read from MumbleLink; `false` when MumbleLink is not available (e.g.
/// the game is not running).
pub fn is_in_competitive_mode(ui_state: Option<u32>) -> (competitive: bool)
    ensures
        competitive == match ui_state {
            Some(bits) => bits & UI_STATE_IS_IN_COMPETITIVE_MODE != 0,
            None => false,
        },
{
    match ui_state {
        Some(bits) => bits & UI_STATE_IS_IN_COMPETITIVE_MODE != 0,
        None => false,
    }
}

/// Whether the map type is one of the maps the viewer should always be hidden on:
/// Obsidian Sanctum, Edge of the Mists, or Armistice Bastion.
pub open spec fn spec_is_hidden_map_type(map_type: u32) -> bool {
    map_type == MAP_TYPE_WVW_OBSIDIAN_SANCTUM || map_type == MAP_TYPE_WVW_EDGE_OF_THE_MISTS
        || map_type == MAP_TYPE_WVW_LOUNGE
}

/// Whether the player is on one of the maps the viewer should always be hidden on,
/// given the `mapType` read from MumbleLink; `false` when MumbleLink is not
/// available.
pub fn is_in_hidden_map(map_type: Option<u32>) -> (hidden: bool)
    ensures
        hidden == match map_type {
            Some(t) => spec_is_hidden_map_type(t),
            None => false,
        },
        hidden == match map_type {
            Some(t) => t == 14 || t == 15 || t == 18,
            None => false,
        },
{
    match map_type {
        Some(t) => t == MAP_TYPE_WVW_OBSIDIAN_SANCTUM || t == MAP_TYPE_WVW_EDGE_OF_THE_MISTS
            || t == MAP_TYPE_WVW_LOUNGE,
        None => false,
    }
}

/// The MumbleLink fields that loading-screen detection reads.
#[derive(Clone, Copy, Debug, PartialEq, Eq, Structural)]
pub struct MumbleFrame {
    pub map_id: u32,
    pub ui_tick: u32,
}

/// The last `uiTick` seen, and since when (nanoseconds on a monotonic clock) it has
/// stayed unchanged.
#[derive(Clone, Copy, Debug, PartialEq, Eq, Structural)]
pub struct TickWatch {
    pub last_tick: u32,
    pub since: u128,
}

/// One step of loading-screen detection at `now`: the watch to keep, and whether
/// the game is on the login/character-select screen or a map loading screen.
/// `map_id == 0` catches character select; a `uiTick` that has not changed for
/// the stall threshold catches loading screens; any other tick starts a new watch.
pub open spec fn spec_loading_step(watch: Option<TickWatch>, link: Option<MumbleFrame>, now: u128) -> (
    Option<TickWatch>,
    bool,
) {
    match link {
        None => (watch, false),
        Some(frame) => if frame.map_id == 0 {
            (watch, true)
        } else {
            match watch {
                Some(w) => if w.last_tick == frame.ui_tick {
                    (watch, spec_elapsed(w.since as int, now as int) >= LOADING_STALL_THRESHOLD_NANOS)
                } else {
                    (Some(TickWatch { last_tick: frame.ui_tick, since: now }), false)
                },
                None => (Some(TickWatch { last_tick: frame.ui_tick, since: now }), false),
            }
        },
    }
}

/// Whether the game is currently sitting on the login/character-select screen or
/// a map loading screen, given what MumbleLink shows at `now` (`None` when it is
/// not available); updates the tick watch kept between calls.
pub fn is_in_loading_or_login_screen(
    watch: &mut Option<TickWatch>,
    link: Option<MumbleFrame>,
    now: u128,
) -> (on_loading_screen: bool)
    ensures
        *final(watch) == spec_loading_step(*old(watch), link, now).0,
        on_loading_screen == spec_loading_step(*old(watch), link, now).1,
{
    let frame = match link {
        Some(f) => f,
        None => {
            return false;
        },
    };
    if frame.map_id == 0 {
        return true;
    }
    let tick: u32 = frame.ui_tick;
    match *watch {
        Some(w) => {
            if w.last_tick == tick {
                return elapsed_since(w.since, now) >= LOADING_STALL_THRESHOLD_NANOS;
            }
        },
        None => {},
    }
    *watch = Some(TickWatch { last_tick: tick, since: now });
    false
}

/// Detection corrects itself on every call and can never get stuck hidden: with
/// MumbleLink available and a nonzero map id, a `uiTick` other than the watched
/// one always reports "not loading" and restarts the watch at that tick.
pub proof fn law_loading_screen_never_stuck(watch: Option<TickWatch>, frame: MumbleFrame, now: u128)
    requires
        frame.map_id != 0,
        match watch {
            Some(w) => w.last_tick != frame.ui_tick,
            None => true,
        },
    ensures
        !spec_loading_step(watch, Some(frame), now).1,
        spec_loading_step(watch, Some(frame), now).0 == Some(TickWatch { last_tick: frame.ui_tick, since: now }),
{
}

/// Character select (`map_id == 0`) always counts as a loading/login screen, and
/// without MumbleLink nothing does; neither case touches the watch.
pub proof fn law_login_screen_and_missing_link(watch: Option<TickWatch>, frame: MumbleFrame, now: u128)
    ensures
        frame.map_id == 0 ==> spec_loading_step(watch, Some(frame), now) == (watch, true),
        spec_loading_step(watch, None, now) == (watch, false),
{
}

/// A tick that stays unchanged from `since` on is reported as a loading screen
/// exactly from `since` plus the stall threshold on.
pub proof fn law_stalled_tick_detected(tick: u32, since: u128, frame: MumbleFrame, now: u128)
    requires
        frame.map_id != 0,
        frame.ui_tick == tick,
        now >= since,
    ensures
        spec_loading_step(Some(TickWatch { last_tick: tick, since }), Some(frame), now).1
            == (now - since >= LOADING_STALL_THRESHOLD_NANOS),
{
}

/// The maps the viewer is always hidden on are exactly Obsidian Sanctum (map type
/// 14), Edge of the Mists (15) and Armistice Bastion (18); every other map type,
/// PvE instances and public maps among them, keeps it shown.
pub proof fn law_hidden_maps_are_the_three_wvw_maps(map_type: u32)
    ensures
        spec_is_hidden_map_type(map_type) <==> (map_type == 14 || map_type == 15 || map_type == 18),
{
}

/// Competitive mode is read from bit 4 (value 16) of `uiState` alone: the other
/// bits (map open, focus, combat, ...) do not matter.
pub proof fn law_competitive_mode_is_bit_four(bits: u32)
    ensures
        (bits & UI_STATE_IS_IN_COMPETITIVE_MODE != 0) <==> ((bits / 16) % 2 == 1),
{
    assert((bits & 0x10u32 != 0) <==> ((bits / 16) % 2 == 1)) by (bit_vector);
}

/// The watch is restarted only when the tick changes: while the tick stays what
/// the watch recorded (and the map id is not 0), a step keeps the watch as it was.
pub proof fn law_watch_kept_while_tick_unchanged(w: TickWatch, frame: MumbleFrame, now: u128)
    requires
        frame.map_id != 0,
        frame.ui_tick == w.last_tick,
    ensures
        spec_loading_step(Some(w), Some(frame), now).0 == Some(w),
{
}

/// The watch after a run of steps that all see the same MumbleLink frame, at the
/// given times.
pub open spec fn spec_same_frame_run(watch: Option<TickWatch>, frame: MumbleFrame, times: Seq<u128>) -> Option<TickWatch>
    decreases times.len(),
{
    if times.len() == 0 {
        watch
    } else {
        spec_loading_step(spec_same_frame_run(watch, frame, times.drop_last()), Some(frame), times.last()).0
    }
}

/// A loading screen keeps being reported for as long as the tick stays frozen:
/// over any run of calls that see the watched tick unchanged (on a map with a
/// nonzero id), the watch stays as it was, and every call reports a loading screen
/// exactly when the stall threshold has passed since the watch started.
pub proof fn law_frozen_tick_keeps_reporting(w: TickWatch, frame: MumbleFrame, times: Seq<u128>)
    requires
        frame.map_id != 0,
        frame.ui_tick == w.last_tick,
    ensures
        forall|k: int| 0 <= k <= times.len() ==> #[trigger] spec_same_frame_run(Some(w), frame, times.take(k)) == Some(w),
        forall|k: int|
            0 <= k < times.len() ==> #[trigger] spec_loading_step(spec_same_frame_run(Some(w), frame, times.take(k)), Some(frame), times[k]).1
                == (spec_elapsed(w.since as int, times[k] as int) >= LOADING_STALL_THRESHOLD_NANOS),
    decreases times.len(),
{
    if times.len() > 0 {
        let earlier = times.drop_last();
        law_frozen_tick_keeps_reporting(w, frame, earlier);
        assert forall|k: int| 0 <= k <= times.len() implies #[trigger] spec_same_frame_run(Some(w), frame, times.take(k)) == Some(w) by {
            if k < times.len() {
                assert(times.take(k) =~= earlier.take(k));
            } else {
                assert(times.take(k) =~= times);
                assert(earlier.take(earlier.len() as int) =~= earlier);
                assert(spec_same_frame_run(Some(w), frame, earlier.take(earlier.len() as int)) == Some(w));
                assert(spec_same_frame_run(Some(w), frame, earlier) == Some(w));
                assert(times.drop_last() == earlier);
            }
        }
    }
}

} // verus!
