use vstd::prelude::*;

verus! {

/// Length of one GW2 reset period (one UTC calendar day), in seconds.
pub const SECONDS_PER_DAY: i64 = 86400;

/// The reset day a Unix timestamp belongs to: the floor of `t / 86400`.
pub open spec fn spec_reset_day(unix_time: int) -> int {
    unix_time / 86400
}

/// GW2's daily reset lands exactly on the UTC calendar day boundary (00:00 UTC),
/// which is also where Unix day numbers roll over, so no timezone math is needed.
pub fn reset_day(unix_time: i64) -> (day: i64)
    ensures
        day == spec_reset_day(unix_time as int),
        day * 86400 <= unix_time < (day + 1) * 86400,
{
    match unix_time.checked_div_euclid(SECONDS_PER_DAY) {
        Some(d) => d,
        None => 0,
    }
}

/// The abstract identity of a tracked event: its track name and its event name.
pub type EventKey = (Seq<char>, Seq<char>);

/// Identifies one event of one track of the schedule.
#[derive(Clone, Debug, PartialEq, Eq, Hash)]
pub struct TrackedEventId {
    pub track: String,
    pub event: String,
}

impl View for TrackedEventId {
    type V = EventKey;

    open spec fn view(&self) -> EventKey {
        (self.track@, self.event@)
    }
}

impl TrackedEventId {
    pub fn new(track_name: &str, event_name: &str) -> (id: TrackedEventId)
        ensures
            id@ == (track_name@, event_name@),
    {
        TrackedEventId { track: track_name.to_owned(), event: event_name.to_owned() }
    }

    /// A copy of this identifier, with the same track and event names.
    pub fn duplicate(&self) -> (id: TrackedEventId)
        ensures
            id@ == self@,
    {
        TrackedEventId { track: self.track.clone(), event: self.event.clone() }
    }

    /// Whether both identifiers name the same track and the same event.
    pub fn same_as(&self, other: &TrackedEventId) -> (same: bool)
        ensures
            same == (self@ == other@),
    {
        self.track == other.track && self.event == other.event
    }
}

/// The set of event keys that a list of identifiers names.
pub open spec fn keys_of(ids: Seq<TrackedEventId>) -> Set<EventKey> {
    Set::new(|k: EventKey| exists|i: int| 0 <= i < ids.len() && #[trigger] ids[i]@ == k)
}

/// No event is named twice in the list.
pub open spec fn keys_distinct(ids: Seq<TrackedEventId>) -> bool {
    forall|i: int, j: int| 0 <= i < ids.len() && 0 <= j < ids.len() && i != j ==> #[trigger] ids[i]@ != #[trigger] ids[j]@
}

/// What a `FinishedEventsState` means: the events marked finished, and the reset
/// day those marks belong to (`None` before the first use).
#[verifier::ext_equal]
pub struct FinishedModel {
    pub finished: Set<EventKey>,
    pub last_reset_day: Option<int>,
}

/// Tracks which events the user has marked (manually or via API sync) as finished
/// for the current GW2 daily reset period. Rather than tagging each entry with the
/// day of the specific occurrence it was marked against, the whole set is wiped the
/// moment real wall-clock time crosses into a new reset day.
pub struct FinishedEventsState {
    finished: Vec<TrackedEventId>,
    last_reset_day: Option<i64>,
}

impl FinishedEventsState {
    #[verifier::type_invariant]
    spec fn no_duplicates(self) -> bool {
        keys_distinct(self.finished@)
    }
}

impl View for FinishedEventsState {
    type V = FinishedModel;

    closed spec fn view(&self) -> FinishedModel {
        FinishedModel {
            finished: keys_of(self.finished@),
            last_reset_day: match self.last_reset_day {
                Some(d) => Some(d as int),
                None => None,
            },
        }
    }
}

/// The state after the daily-reset check at time `t`: unchanged when its marks
/// already belong to `t`'s reset day, otherwise empty and stamped with that day.
pub open spec fn spec_roll(m: FinishedModel, t: int) -> FinishedModel {
    if m.last_reset_day == Some(spec_reset_day(t)) {
        m
    } else {
        FinishedModel { finished: Set::empty(), last_reset_day: Some(spec_reset_day(t)) }
    }
}

/// Whether `id` counts as finished at time `t`.
pub open spec fn spec_is_finished(m: FinishedModel, id: EventKey, t: int) -> bool {
    spec_roll(m, t).finished.contains(id)
}

/// The state after marking `id` finished at time `t`.
pub open spec fn spec_set_finished(m: FinishedModel, id: EventKey, t: int) -> FinishedModel {
    let r = spec_roll(m, t);
    FinishedModel { finished: r.finished.insert(id), last_reset_day: r.last_reset_day }
}

/// The state after flipping the mark of `id` at time `t`.
pub open spec fn spec_toggle_finished(m: FinishedModel, id: EventKey, t: int) -> FinishedModel {
    let r = spec_roll(m, t);
    if r.finished.contains(id) {
        FinishedModel { finished: r.finished.remove(id), last_reset_day: r.last_reset_day }
    } else {
        FinishedModel { finished: r.finished.insert(id), last_reset_day: r.last_reset_day }
    }
}

/// The snapshot taken at time `t`: the marks of `t`'s reset day, and that day.
pub open spec fn spec_export(m: FinishedModel, t: int) -> (Set<EventKey>, int) {
    (spec_roll(m, t).finished, spec_reset_day(t))
}

/// The state after restoring a snapshot saved on `saved_day` at time `t`: its marks
/// are kept only when the snapshot belongs to `t`'s reset day.
pub open spec fn spec_import(entries: Set<EventKey>, saved_day: int, t: int) -> FinishedModel {
    FinishedModel {
        finished: if saved_day == spec_reset_day(t) { entries } else { Set::empty() },
        last_reset_day: Some(spec_reset_day(t)),
    }
}

impl Default for FinishedEventsState {
    fn default() -> (s: FinishedEventsState)
        ensures
            s@ == (FinishedModel { finished: Set::empty(), last_reset_day: None }),
    {
        let s = FinishedEventsState { finished: Vec::new(), last_reset_day: None };
        assert(keys_of(s.finished@) =~= Set::empty());
        s
    }
}

/// Index of the entry naming `id`, if any.
fn find_event(list: &Vec<TrackedEventId>, id: &TrackedEventId) -> (found: Option<usize>)
    ensures
        match found {
            Some(i) => i < list.len() && list@[i as int]@ == id@,
            None => !keys_of(list@).contains(id@),
        },
{
    let n: usize = list.len();
    let mut i: usize = 0;
    while i < n
        invariant
            n == list.len(),
            i <= n,
            forall|j: int| 0 <= j < i ==> #[trigger] list@[j]@ != id@,
        decreases n - i,
    {
        if list[i].same_as(id) {
            return Some(i);
        }
        i = i + 1;
    }
    None
}

proof fn lemma_keys_push(ids: Seq<TrackedEventId>, x: TrackedEventId)
    ensures
        keys_of(ids.push(x)) =~= keys_of(ids).insert(x@),
{
    let s = ids.push(x);
    assert forall|k: EventKey| keys_of(s).contains(k) implies keys_of(ids).insert(x@).contains(k) by {
        let i = choose|i: int| 0 <= i < s.len() && #[trigger] s[i]@ == k;
        if i < ids.len() {
            assert(ids[i]@ == k);
        }
    }
    assert forall|k: EventKey| keys_of(ids).insert(x@).contains(k) implies keys_of(s).contains(k) by {
        if k == x@ {
            assert(s[ids.len() as int]@ == k);
        } else {
            let i = choose|i: int| 0 <= i < ids.len() && #[trigger] ids[i]@ == k;
            assert(s[i]@ == k);
        }
    }
}

proof fn lemma_keys_remove(ids: Seq<TrackedEventId>, i: int)
    requires
        0 <= i < ids.len(),
        keys_distinct(ids),
    ensures
        keys_of(ids.remove(i)) =~= keys_of(ids).remove(ids[i]@),
        keys_distinct(ids.remove(i)),
{
    let s = ids.remove(i);
    assert forall|k: EventKey| keys_of(s).contains(k) implies keys_of(ids).remove(ids[i]@).contains(k) by {
        let j = choose|j: int| 0 <= j < s.len() && #[trigger] s[j]@ == k;
        if j < i {
            assert(ids[j]@ == k);
        } else {
            assert(ids[j + 1]@ == k);
        }
    }
    assert forall|k: EventKey| keys_of(ids).remove(ids[i]@).contains(k) implies keys_of(s).contains(k) by {
        let j = choose|j: int| 0 <= j < ids.len() && #[trigger] ids[j]@ == k;
        if j < i {
            assert(s[j]@ == k);
        } else {
            assert(j != i);
            assert(s[j - 1]@ == k);
        }
    }
    assert forall|a: int, b: int| 0 <= a < s.len() && 0 <= b < s.len() && a != b implies #[trigger] s[a]@ != #[trigger] s[b]@ by {
        let a2 = if a < i { a } else { a + 1 };
        let b2 = if b < i { b } else { b + 1 };
        assert(s[a] == ids[a2]);
        assert(s[b] == ids[b2]);
    }
}

impl FinishedEventsState {
    /// Clears all markers if real time has moved past the reset day they were set on.
    fn roll_reset(&mut self, current_time: i64)
        ensures
            final(self)@ == spec_roll(old(self)@, current_time as int),
    {
        let today = reset_day(current_time);
        let same_day = match self.last_reset_day {
            Some(d) => d == today,
            None => false,
        };
        if !same_day {
            self.finished = Vec::new();
            self.last_reset_day = Some(today);
            assert(keys_of(self.finished@) =~= Set::empty());
        }
    }

    /// Adds `id` when it is not there yet.
    fn insert_event(&mut self, id: TrackedEventId)
        ensures
            final(self)@ == (FinishedModel {
                finished: old(self)@.finished.insert(id@),
                last_reset_day: old(self)@.last_reset_day,
            }),
    {
        proof {
            use_type_invariant(&*self);
        }
        match find_event(&self.finished, &id) {
            Some(_) => {
                assert(keys_of(self.finished@).insert(id@) =~= keys_of(self.finished@));
            },
            None => {
                let mut list: Vec<TrackedEventId> = Vec::new();
                std::mem::swap(&mut list, &mut self.finished);
                let ghost before = list@;
                proof {
                    lemma_keys_push(before, id);
                    assert forall|a: int, b: int|
                        0 <= a < before.push(id).len() && 0 <= b < before.push(id).len() && a != b
                        implies #[trigger] before.push(id)[a]@ != #[trigger] before.push(id)[b]@ by {
                        if a == before.len() {
                            assert(before[b]@ != id@);
                        } else if b == before.len() {
                            assert(before[a]@ != id@);
                        }
                    }
                }
                list.push(id);
                self.finished = list;
            },
        }
    }

    /// Removes `id`, if it is there, and says whether it was.
    fn remove_event(&mut self, id: &TrackedEventId) -> (was_there: bool)
        ensures
            was_there == old(self)@.finished.contains(id@),
            final(self)@ == (FinishedModel {
                finished: old(self)@.finished.remove(id@),
                last_reset_day: old(self)@.last_reset_day,
            }),
    {
        proof {
            use_type_invariant(&*self);
        }
        match find_event(&self.finished, id) {
            Some(i) => {
                let mut list: Vec<TrackedEventId> = Vec::new();
                std::mem::swap(&mut list, &mut self.finished);
                proof {
                    lemma_keys_remove(list@, i as int);
                }
                list.remove(i);
                self.finished = list;
                true
            },
            None => {
                assert(keys_of(self.finished@).remove(id@) =~= keys_of(self.finished@));
                false
            },
        }
    }
}

/// Whether the event counts as finished at `current_time`; markers of an earlier
/// reset day are cleared first.
pub fn is_event_finished(
    state: &mut FinishedEventsState,
    track_name: &str,
    event_name: &str,
    current_time: i64,
) -> (finished: bool)
    ensures
        finished == spec_is_finished(old(state)@, (track_name@, event_name@), current_time as int),
        final(state)@ == spec_roll(old(state)@, current_time as int),
{
    let event_id = TrackedEventId::new(track_name, event_name);
    state.roll_reset(current_time);
    proof {
        use_type_invariant(&*state);
    }
    match find_event(&state.finished, &event_id) {
        Some(_) => true,
        None => false,
    }
}

/// Marks an event finished for today, without toggling it back off if it's
/// already marked (used for API-driven auto-marking).
pub fn set_event_finished(
    state: &mut FinishedEventsState,
    track_name: &str,
    event_name: &str,
    current_time: i64,
)
    ensures
        final(state)@ == spec_set_finished(old(state)@, (track_name@, event_name@), current_time as int),
{
    let event_id = TrackedEventId::new(track_name, event_name);
    state.roll_reset(current_time);
    state.insert_event(event_id);
}

/// Flips the finished mark of an event for today.
pub fn toggle_event_finished(
    state: &mut FinishedEventsState,
    track_name: &str,
    event_name: &str,
    current_time: i64,
)
    ensures
        final(state)@ == spec_toggle_finished(old(state)@, (track_name@, event_name@), current_time as int),
{
    let event_id = TrackedEventId::new(track_name, event_name);
    state.roll_reset(current_time);
    let ghost rolled = state@;
    if !state.remove_event(&event_id) {
        assert(rolled.finished.remove(event_id@) =~= rolled.finished);
        state.insert_event(event_id);
    }
    assert(state@.finished =~= spec_toggle_finished(old(state)@, (track_name@, event_name@), current_time as int).finished);
}

/// Snapshot of currently-finished events for persisting to disk, alongside the
/// reset day they belong to (so a stale snapshot can be recognized on load).
pub fn export_finished(state: &mut FinishedEventsState, current_time: i64) -> (snapshot: (
    Vec<TrackedEventId>,
    i64,
))
    ensures
        final(state)@ == spec_roll(old(state)@, current_time as int),
        keys_of(snapshot.0@) == spec_export(old(state)@, current_time as int).0,
        keys_distinct(snapshot.0@),
        snapshot.1 == spec_export(old(state)@, current_time as int).1,
{
    state.roll_reset(current_time);
    proof {
        use_type_invariant(&*state);
    }
    let n: usize = state.finished.len();
    let mut copy: Vec<TrackedEventId> = Vec::new();
    let mut i: usize = 0;
    while i < n
        invariant
            n == state.finished.len(),
            i <= n,
            copy.len() == i,
            keys_distinct(state.finished@),
            forall|j: int| 0 <= j < i ==> #[trigger] copy@[j]@ == state.finished@[j]@,
        decreases n - i,
    {
        copy.push(state.finished[i].duplicate());
        i = i + 1;
    }
    proof {
        assert forall|a: int, b: int| 0 <= a < copy.len() && 0 <= b < copy.len() && a != b implies #[trigger] copy@[a]@ != #[trigger] copy@[b]@ by {
            assert(copy@[a]@ == state.finished@[a]@);
            assert(copy@[b]@ == state.finished@[b]@);
        }
        assert forall|k: EventKey| keys_of(copy@).contains(k) implies keys_of(state.finished@).contains(k) by {
            let j = choose|j: int| 0 <= j < copy@.len() && #[trigger] copy@[j]@ == k;
            assert(state.finished@[j]@ == k);
        }
        assert forall|k: EventKey| keys_of(state.finished@).contains(k) implies keys_of(copy@).contains(k) by {
            let j = choose|j: int| 0 <= j < state.finished@.len() && #[trigger] state.finished@[j]@ == k;
            assert(copy@[j]@ == k);
        }
        assert(keys_of(copy@) =~= keys_of(state.finished@));
    }
    let day = match state.last_reset_day {
        Some(d) => d,
        None => reset_day(current_time),
    };
    (copy, day)
}

/// Restores finished-event markers loaded from disk, discarding them outright
/// if they were saved on a prior reset day.
pub fn import_finished(
    state: &mut FinishedEventsState,
    entries: Vec<TrackedEventId>,
    saved_day: i64,
    current_time: i64,
)
    ensures
        final(state)@ == spec_import(keys_of(entries@), saved_day as int, current_time as int),
{
    let today = reset_day(current_time);
    let mut fresh = FinishedEventsState { finished: Vec::new(), last_reset_day: Some(today) };
    assert(keys_of(fresh.finished@) =~= Set::empty());
    if saved_day == today {
        let mut rest = entries;
        let ghost all = keys_of(entries@);
        while rest.len() > 0
            invariant
                keys_of(fresh.finished@).union(keys_of(rest@)) =~= all,
                fresh.last_reset_day == Some(today),
            decreases rest.len(),
        {
            let ghost before = rest@;
            let e = rest.pop().unwrap();
            proof {
                assert(before =~= rest@.push(e));
                lemma_keys_push(rest@, e);
            }
            fresh.insert_event(e);
        }
        assert(keys_of(rest@) =~= Set::empty());
        assert(keys_of(fresh.finished@) =~= all);
    }
    assert(fresh@.finished =~= spec_import(keys_of(entries@), saved_day as int, current_time as int).finished);
    *state = fresh;
}

/// Every operation leaves the state stamped with the reset day of the time it ran
/// at, so the marks it holds always belong to that day.
pub proof fn law_operations_stamp_their_day(m: FinishedModel, id: EventKey, entries: Set<EventKey>, saved_day: int, t: int)
    ensures
        spec_roll(m, t).last_reset_day == Some(spec_reset_day(t)),
        spec_set_finished(m, id, t).last_reset_day == Some(spec_reset_day(t)),
        spec_toggle_finished(m, id, t).last_reset_day == Some(spec_reset_day(t)),
        spec_import(entries, saved_day, t).last_reset_day == Some(spec_reset_day(t)),
{
}

/// Once real time is in a reset day other than the one the marks were set on,
/// no event counts as finished any more.
pub proof fn law_new_day_starts_empty(m: FinishedModel, t: int)
    requires
        m.last_reset_day != Some(spec_reset_day(t)),
    ensures
        spec_roll(m, t).finished == Set::<EventKey>::empty(),
        forall|k: EventKey| !spec_is_finished(m, k, t),
{
}

/// A mark set (or toggled on) at one time is gone at any time of another reset day.
pub proof fn law_marks_clear_at_daily_reset(m: FinishedModel, id: EventKey, k: EventKey, t1: int, t2: int)
    requires
        spec_reset_day(t1) != spec_reset_day(t2),
    ensures
        !spec_is_finished(spec_set_finished(m, id, t1), k, t2),
        !spec_is_finished(spec_toggle_finished(m, id, t1), k, t2),
{
}

/// What is marked finished stays finished for the rest of that reset day.
pub proof fn law_set_then_query(m: FinishedModel, id: EventKey, t1: int, t2: int)
    requires
        spec_reset_day(t1) == spec_reset_day(t2),
    ensures
        spec_is_finished(spec_set_finished(m, id, t1), id, t2),
{
}

/// Marking an already marked event again changes nothing.
pub proof fn law_set_is_idempotent(m: FinishedModel, id: EventKey, t1: int, t2: int)
    requires
        spec_reset_day(t1) == spec_reset_day(t2),
    ensures
        spec_set_finished(spec_set_finished(m, id, t1), id, t2) =~= spec_set_finished(m, id, t1),
{
}

/// Toggling flips whether the event counts as finished.
pub proof fn law_toggle_flips(m: FinishedModel, id: EventKey, t1: int, t2: int)
    requires
        spec_reset_day(t1) == spec_reset_day(t2),
    ensures
        spec_is_finished(spec_toggle_finished(m, id, t1), id, t2) == !spec_is_finished(m, id, t1),
{
}

/// Toggling the same event twice within one reset day restores the marks.
pub proof fn law_toggle_twice_restores(m: FinishedModel, id: EventKey, t1: int, t2: int)
    requires
        spec_reset_day(t1) == spec_reset_day(t2),
    ensures
        spec_toggle_finished(spec_toggle_finished(m, id, t1), id, t2) =~= spec_roll(m, t1),
{
    let r = spec_roll(m, t1);
    if r.finished.contains(id) {
        assert(r.finished.remove(id).insert(id) =~= r.finished);
    } else {
        assert(r.finished.insert(id).remove(id) =~= r.finished);
    }
}

/// Marking or toggling one event leaves every other event as it was.
pub proof fn law_other_events_unaffected(m: FinishedModel, id: EventKey, k: EventKey, t: int)
    requires
        k != id,
    ensures
        spec_is_finished(spec_set_finished(m, id, t), k, t) == spec_is_finished(m, k, t),
        spec_is_finished(spec_toggle_finished(m, id, t), k, t) == spec_is_finished(m, k, t),
{
}

/// Asking changes no answer: after a query, every event counts as finished at
/// any time of the same reset day exactly when it did before.
pub proof fn law_query_changes_no_answer(m: FinishedModel, k: EventKey, t1: int, t2: int)
    requires
        spec_reset_day(t1) == spec_reset_day(t2),
    ensures
        spec_is_finished(spec_roll(m, t1), k, t2) == spec_is_finished(m, k, t1),
{
}

/// Restoring a snapshot within the reset day it was taken in gives back the marks
/// that were exported.
pub proof fn law_export_import_roundtrip(m: FinishedModel, t1: int, t2: int)
    requires
        spec_reset_day(t1) == spec_reset_day(t2),
    ensures
        spec_import(spec_export(m, t1).0, spec_export(m, t1).1, t2) =~= spec_roll(m, t1),
{
}

/// A snapshot saved on another reset day is discarded outright.
pub proof fn law_stale_snapshot_discarded(entries: Set<EventKey>, saved_day: int, t: int)
    requires
        saved_day != spec_reset_day(t),
    ensures
        spec_import(entries, saved_day, t).finished == Set::<EventKey>::empty(),
{
}

/// The state after marking each event of `events` finished, in order, at time `t`.
pub open spec fn spec_set_all(m: FinishedModel, events: Seq<EventKey>, t: int) -> FinishedModel
    decreases events.len(),
{
    if events.len() == 0 {
        m
    } else {
        spec_set_finished(spec_set_all(m, events.drop_last(), t), events.last(), t)
    }
}

/// Marking a concatenation of event lists marks the first list, then the second.
pub proof fn lemma_set_all_concat(m: FinishedModel, a: Seq<EventKey>, b: Seq<EventKey>, t: int)
    ensures
        spec_set_all(m, a + b, t) == spec_set_all(spec_set_all(m, a, t), b, t),
    decreases b.len(),
{
    if b.len() == 0 {
        assert(a + b =~= a);
    } else {
        assert((a + b).drop_last() =~= a + b.drop_last());
        lemma_set_all_concat(m, a, b.drop_last(), t);
    }
}

/// A sync marks exactly the reported events: when it marks any, the marks of the
/// current reset day gain those events and nothing else; when it marks none, the
/// state is left untouched.
pub proof fn law_sync_marks_exactly_reported(m: FinishedModel, events: Seq<EventKey>, t: int)
    ensures
        events.len() == 0 ==> spec_set_all(m, events, t) == m,
        events.len() > 0 ==> spec_set_all(m, events, t) == (FinishedModel {
            finished: spec_roll(m, t).finished.union(events.to_set()),
            last_reset_day: Some(spec_reset_day(t)),
        }),
    decreases events.len(),
{
    if events.len() > 0 {
        let earlier = events.drop_last();
        let e = events.last();
        assert(earlier.push(e) =~= events);
        earlier.lemma_push_to_set_commute(e);
        law_sync_marks_exactly_reported(m, earlier, t);
        if earlier.len() == 0 {
            assert(earlier.to_set() =~= Set::<EventKey>::empty());
            assert(spec_roll(m, t).finished.union(events.to_set()) =~= spec_roll(m, t).finished.insert(e));
        } else {
            assert(spec_roll(m, t).finished.union(earlier.to_set()).insert(e) =~= spec_roll(m, t).finished.union(events.to_set()));
        }
    }
}

/// The daily-reset check is idempotent within a reset day: running it again at any
/// time of the same day changes nothing, so the marks survive.
pub proof fn law_roll_is_idempotent(m: FinishedModel, t1: int, t2: int)
    requires
        spec_reset_day(t1) == spec_reset_day(t2),
    ensures
        spec_roll(spec_roll(m, t1), t2) == spec_roll(m, t1),
{
}

/// One call on the finished-events state, with the time it runs at: a query (or
/// any other call that only applies the daily reset, such as an export), a mark,
/// a toggle, an API sync marking a list of events, or a snapshot import.
pub enum MarkOp {
    Query { time: int },
    Mark { id: EventKey, time: int },
    Toggle { id: EventKey, time: int },
    Sync { events: Seq<EventKey>, time: int },
    Import { entries: Set<EventKey>, saved_day: int, time: int },
}

/// The time a call runs at.
pub open spec fn op_time(op: MarkOp) -> int {
    match op {
        MarkOp::Query { time } => time,
        MarkOp::Mark { time, .. } => time,
        MarkOp::Toggle { time, .. } => time,
        MarkOp::Sync { time, .. } => time,
        MarkOp::Import { time, .. } => time,
    }
}

/// The state after one call.
pub open spec fn spec_apply_op(m: FinishedModel, op: MarkOp) -> FinishedModel {
    match op {
        MarkOp::Query { time } => spec_roll(m, time),
        MarkOp::Mark { id, time } => spec_set_finished(m, id, time),
        MarkOp::Toggle { id, time } => spec_toggle_finished(m, id, time),
        MarkOp::Sync { events, time } => spec_set_all(m, events, time),
        MarkOp::Import { entries, saved_day, time } => spec_import(entries, saved_day, time),
    }
}

/// The state after a run of calls, in order.
pub open spec fn spec_apply_ops(m: FinishedModel, ops: Seq<MarkOp>) -> FinishedModel
    decreases ops.len(),
{
    if ops.len() == 0 {
        m
    } else {
        spec_apply_op(spec_apply_ops(m, ops.drop_last()), ops.last())
    }
}

/// The call can take away the mark of `id` only by toggling it or by an import.
pub open spec fn op_may_unmark(op: MarkOp, id: EventKey) -> bool {
    match op {
        MarkOp::Toggle { id: k, .. } => k == id,
        MarkOp::Import { .. } => true,
        _ => false,
    }
}

proof fn lemma_set_all_keeps_day_and_marks(m: FinishedModel, events: Seq<EventKey>, t: int)
    requires
        m.last_reset_day == Some(spec_reset_day(t)),
    ensures
        spec_set_all(m, events, t).last_reset_day == Some(spec_reset_day(t)),
        m.finished.subset_of(spec_set_all(m, events, t).finished),
    decreases events.len(),
{
    if events.len() > 0 {
        lemma_set_all_keeps_day_and_marks(m, events.drop_last(), t);
    }
}

proof fn lemma_ops_keep_mark(m: FinishedModel, id: EventKey, day: int, ops: Seq<MarkOp>)
    requires
        m.last_reset_day == Some(day),
        m.finished.contains(id),
        forall|i: int| 0 <= i < ops.len() ==> spec_reset_day(op_time(#[trigger] ops[i])) == day,
        forall|i: int| 0 <= i < ops.len() ==> !op_may_unmark(#[trigger] ops[i], id),
    ensures
        spec_apply_ops(m, ops).last_reset_day == Some(day),
        spec_apply_ops(m, ops).finished.contains(id),
    decreases ops.len(),
{
    if ops.len() > 0 {
        let earlier = ops.drop_last();
        assert forall|i: int| 0 <= i < earlier.len() implies spec_reset_day(op_time(#[trigger] earlier[i])) == day by {
            assert(earlier[i] == ops[i]);
        }
        assert forall|i: int| 0 <= i < earlier.len() implies !op_may_unmark(#[trigger] earlier[i], id) by {
            assert(earlier[i] == ops[i]);
        }
        lemma_ops_keep_mark(m, id, day, earlier);
        let before = spec_apply_ops(m, earlier);
        let op = ops.last();
        assert(spec_reset_day(op_time(ops[ops.len() - 1])) == day);
        assert(!op_may_unmark(ops[ops.len() - 1], id));
        match op {
            MarkOp::Sync { events, time } => {
                lemma_set_all_keeps_day_and_marks(before, events, time);
            },
            _ => {},
        }
    }
}

/// A mark holds for the rest of its reset day and is gone from the next reset on:
/// after marking `id` at `t1`, and any run of calls within that reset day none of
/// which toggles `id` or imports a snapshot, `id` counts as finished at `t2`
/// exactly when `t2` lies in the same reset day as `t1`.
pub proof fn law_mark_holds_for_its_day(m: FinishedModel, id: EventKey, t1: int, ops: Seq<MarkOp>, t2: int)
    requires
        forall|i: int| 0 <= i < ops.len() ==> spec_reset_day(op_time(#[trigger] ops[i])) == spec_reset_day(t1),
        forall|i: int| 0 <= i < ops.len() ==> !op_may_unmark(#[trigger] ops[i], id),
    ensures
        spec_is_finished(spec_apply_ops(spec_set_finished(m, id, t1), ops), id, t2)
            == (spec_reset_day(t2) == spec_reset_day(t1)),
{
    lemma_ops_keep_mark(spec_set_finished(m, id, t1), id, spec_reset_day(t1), ops);
}

} // verus!
