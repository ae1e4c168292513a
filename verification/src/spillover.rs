//! Which rooms' owners are so loaded that another pod takes their joiners.
//!
//! Owners report on their rooms by beacon; the store holds the last report on each
//! room, under the room's id as it stands in subjects. Times are nanoseconds of a
//! monotonic clock.
use dashmap::DashMap;
use vstd::prelude::*;

use crate::float32::Float32;
use crate::health_beacon::{normalize_room_id, HealthBeaconPacket};
use crate::packet::PacketType;
use crate::text::{chars_of, copy_range, string_of};

verus! {

/// With more participants than this the owner is full.
pub const SPILLOVER_PARTICIPANT_THRESHOLD: u32 = 180;

/// With a load above this, 0.80 in single precision, the owner is hot.
pub const SPILLOVER_CPU_THRESHOLD: u32 = 0x3F4C_CCCD;

/// A report this old, in nanoseconds, or older says nothing any more.
pub const SPILLOVER_FRESHNESS_WINDOW: u64 = 15_000_000_000;

/// The subjects on which beacons arrive.
pub const SPILLOVER_SUBJECT_PATTERN: &'static str = "room.*.system";

/// Reports this old, in nanoseconds, or older are dropped when a beacon comes in.
pub const SPILLOVER_PRUNE_HORIZON: u64 = 300_000_000_000;

/// The last report of a room's owner.
#[derive(Debug, Clone, Copy, PartialEq, Eq, Structural)]
pub struct RoomSpilloverState {
    pub owner_count: u32,
    pub owner_cpu: Float32,
    /// When the report came in.
    pub last_seen: u64,
}

impl RoomSpilloverState {
    /// The report is fresh, and says that the owner is full or hot.
    pub open spec fn spilled_over(self, now: u64) -> bool {
        &&& crate::room_state::age(now, self.last_seen) < SPILLOVER_FRESHNESS_WINDOW
        &&& self.owner_count > SPILLOVER_PARTICIPANT_THRESHOLD || self.owner_cpu.exceeds(
            SPILLOVER_CPU_THRESHOLD,
        )
    }

    /// Whether the report is fresh and says that the owner is full or hot.
    pub fn is_spilled_over(&self, now: u64) -> (r: bool)
        ensures
            r == self.spilled_over(now),
    {
        now.saturating_sub(self.last_seen) < SPILLOVER_FRESHNESS_WINDOW && (self.owner_count
            > SPILLOVER_PARTICIPANT_THRESHOLD || self.owner_cpu.exceeds(SPILLOVER_CPU_THRESHOLD))
    }
}

/// What the store's map holds, by the text of the room's id.
pub uninterp spec fn reports_held(map: DashMap<String, RoomSpilloverState>) -> Map<
    Seq<char>,
    RoomSpilloverState,
>;

/// `DashMap::new`: the new map is empty.
#[verifier::external_body]
fn reports_new() -> (map: DashMap<String, RoomSpilloverState>)
    ensures
        reports_held(map).dom() == Set::<Seq<char>>::empty(),
{
    DashMap::new()
}

/// `DashMap::get`: the report under `key`, if the map holds one. It is copied out,
/// so no lock on the map outlives the call.
#[verifier::external_body]
fn reports_get(map: &DashMap<String, RoomSpilloverState>, key: &str) -> (r: Option<
    RoomSpilloverState,
>)
    ensures
        match r {
            Some(s) => reports_held(*map).contains_key(key@) && s == reports_held(*map)[key@],
            None => !reports_held(*map).contains_key(key@),
        },
{
    match map.get(key) {
        Some(s) => Some(*s),
        None => None,
    }
}

/// `DashMap::insert`: afterwards `key` maps to `state`, whatever it mapped to
/// before, and every other key is as it was.
#[verifier::external_body]
fn reports_insert(
    map: &mut DashMap<String, RoomSpilloverState>,
    key: String,
    state: RoomSpilloverState,
)
    ensures
        reports_held(*final(map)) == reports_held(*old(map)).insert(key@, state),
{
    map.insert(key, state);
}

/// `DashMap::remove`: afterwards `key` is absent and every other key is as it was.
#[verifier::external_body]
fn reports_remove(map: &mut DashMap<String, RoomSpilloverState>, key: &str)
    ensures
        reports_held(*final(map)) == reports_held(*old(map)).remove(key@),
{
    map.remove(key);
}

/// `DashMap::iter`: each entry of the map once, in no particular order.
#[verifier::external_body]
fn reports_entries(map: &DashMap<String, RoomSpilloverState>) -> (r: Vec<
    (String, RoomSpilloverState),
>)
    ensures
        forall|i: int, j: int| 0 <= i < j < r@.len() ==> r@[i].0@ != r@[j].0@,
        forall|i: int|
            0 <= i < r@.len() ==> reports_held(*map).contains_key(#[trigger] r@[i].0@)
                && reports_held(*map)[r@[i].0@] == r@[i].1,
        forall|k: Seq<char>|
            reports_held(*map).contains_key(k) ==> exists|i: int|
                0 <= i < r@.len() && #[trigger] r@[i].0@ == k,
{
    map.iter().map(|e| (e.key().clone(), *e.value())).collect()
}

/// `DashMap::len`: the number of entries.
#[verifier::external_body]
fn reports_len(map: &DashMap<String, RoomSpilloverState>) -> (n: usize)
    ensures
        n == reports_held(*map).dom().len(),
{
    map.len()
}

/// The last report on each room.
#[derive(Debug)]
pub struct SpilloverStore {
    inner: DashMap<String, RoomSpilloverState>,
}

impl View for SpilloverStore {
    type V = Map<Seq<char>, RoomSpilloverState>;

    closed spec fn view(&self) -> Map<Seq<char>, RoomSpilloverState> {
        reports_held(self.inner)
    }
}

/// The report on the room that callers know as `room_id`.
pub open spec fn report_on(
    store: Map<Seq<char>, RoomSpilloverState>,
    room_id: Seq<char>,
) -> Option<RoomSpilloverState> {
    let key = crate::health_beacon::normalized(room_id);
    if store.contains_key(key) {
        Some(store[key])
    } else {
        None
    }
}

/// A report older than `max_age`, or as old.
pub open spec fn expired(state: RoomSpilloverState, max_age: u64, now: u64) -> bool {
    crate::room_state::age(now, state.last_seen) >= max_age
}

/// The store without its expired reports.
pub open spec fn without_expired(
    store: Map<Seq<char>, RoomSpilloverState>,
    max_age: u64,
    now: u64,
) -> Map<Seq<char>, RoomSpilloverState> {
    store.restrict(
        Set::new(|k: Seq<char>| store.contains_key(k) && !expired(store[k], max_age, now)),
    )
}

/// The rooms whose reports have expired.
pub open spec fn expired_rooms(
    store: Map<Seq<char>, RoomSpilloverState>,
    max_age: u64,
    now: u64,
) -> Set<Seq<char>> {
    Set::new(|k: Seq<char>| store.contains_key(k) && expired(store[k], max_age, now))
}

impl SpilloverStore {
    /// A store without reports.
    pub fn new() -> (r: Self)
        ensures
            r@.dom() == Set::<Seq<char>>::empty(),
    {
        SpilloverStore { inner: reports_new() }
    }

    /// Whether the owner of `room_id` is so loaded that another pod takes its
    /// joiners. Without a fresh report it is not.
    pub fn is_spilled_over(&self, room_id: &str, now: u64) -> (r: bool)
        ensures
            r == spills(self@, room_id@, now),
    {
        match self.snapshot(room_id) {
            Some(s) => s.is_spilled_over(now),
            None => false,
        }
    }

    /// The last report on `room_id`.
    pub fn snapshot(&self, room_id: &str) -> (r: Option<RoomSpilloverState>)
        ensures
            r == report_on(self@, room_id@),
    {
        let key = normalize_room_id(room_id);
        reports_get(&self.inner, key.as_str())
    }

    /// Stores a report in place of the last one. `room_id` is the room's id as it
    /// stands in subjects.
    pub fn record(&mut self, room_id: &str, state: RoomSpilloverState)
        ensures
            final(self)@ == old(self)@.insert(room_id@, state),
    {
        reports_insert(&mut self.inner, String::from_str(room_id), state);
    }

    /// Drops the reports that are `max_age` old or older, and counts them.
    pub fn prune_stale(&mut self, max_age: u64, now: u64) -> (n: usize)
        ensures
            final(self)@ == without_expired(old(self)@, max_age, now),
            n == expired_rooms(old(self)@, max_age, now).len(),
            expired_rooms(old(self)@, max_age, now).finite(),
    {
        let entries = reports_entries(&self.inner);
        let ghost before = self@;
        let ghost gone = Set::<Seq<char>>::empty();
        let mut n: usize = 0;
        let mut i: usize = 0;
        proof {
            assert(self@ =~= before.remove_keys(gone));
        }
        while i < entries.len()
            invariant
                i <= entries@.len(),
                forall|a: int, b: int|
                    0 <= a < b < entries@.len() ==> entries@[a].0@ != entries@[b].0@,
                forall|a: int|
                    0 <= a < entries@.len() ==> before.contains_key(#[trigger] entries@[a].0@)
                        && before[entries@[a].0@] == entries@[a].1,
                self@ == before.remove_keys(gone),
                gone.finite(),
                n == gone.len(),
                n <= i,
                forall|k: Seq<char>| #[trigger]
                    gone.contains(k) <==> exists|a: int|
                        0 <= a < i && #[trigger] entries@[a].0@ == k && expired(
                            entries@[a].1,
                            max_age,
                            now,
                        ),
            decreases entries@.len() - i,
        {
            let ghost earlier = gone;
            if now.saturating_sub(entries[i].1.last_seen) >= max_age {
                reports_remove(&mut self.inner, entries[i].0.as_str());
                proof {
                    let k = entries@[i as int].0@;
                    assert(!gone.contains(k));
                    gone = gone.insert(k);
                    assert(self@ =~= before.remove_keys(gone));
                }
                n = n + 1;
            }
            proof {
                assert forall|k: Seq<char>| #[trigger] gone.contains(k) <==> exists|a: int|
                    0 <= a < i + 1 && #[trigger] entries@[a].0@ == k && expired(
                        entries@[a].1,
                        max_age,
                        now,
                    ) by {
                    if gone.contains(k) {
                        if earlier.contains(k) {
                            let a = choose|a: int|
                                0 <= a < i && #[trigger] entries@[a].0@ == k && expired(
                                    entries@[a].1,
                                    max_age,
                                    now,
                                );
                            assert(entries@[a].0@ == k);
                        } else {
                            assert(entries@[i as int].0@ == k);
                        }
                    }
                    if exists|a: int|
                        0 <= a < i + 1 && #[trigger] entries@[a].0@ == k && expired(
                            entries@[a].1,
                            max_age,
                            now,
                        ) {
                        let a = choose|a: int|
                            0 <= a < i + 1 && #[trigger] entries@[a].0@ == k && expired(
                                entries@[a].1,
                                max_age,
                                now,
                            );
                        if a < i {
                            assert(earlier.contains(k));
                        }
                    }
                }
            }
            i = i + 1;
        }
        proof {
            let due = expired_rooms(before, max_age, now);
            assert forall|k: Seq<char>| #[trigger] due.contains(k) <==> gone.contains(k) by {
                if due.contains(k) {
                    let a = choose|a: int| 0 <= a < entries@.len() && #[trigger] entries@[a].0@ == k;
                    assert(entries@[a].0@ == k);
                }
            }
            assert(due =~= gone);
            assert(self@ =~= without_expired(before, max_age, now));
        }
        n
    }

    /// The number of rooms that there is a report on.
    pub fn len(&self) -> (n: usize)
        ensures
            n == self@.dom().len(),
    {
        reports_len(&self.inner)
    }
}

impl Default for SpilloverStore {
    fn default() -> (r: Self)
        ensures
            r@.dom() == Set::<Seq<char>>::empty(),
    {
        SpilloverStore::new()
    }
}

/// The room that a subject speaks of: what stands between `room.` and `.system`,
/// unless nothing does.
pub open spec fn room_in_subject(subject: Seq<char>) -> Option<Seq<char>> {
    if subject.len() > 12 && subject.take(5) == "room."@ && subject.skip(subject.len() - 7)
        == ".system"@ {
        Some(subject.subrange(5, subject.len() - 7))
    } else {
        None
    }
}

/// The room that a subject speaks of.
pub fn room_id_from_subject(subject: &str) -> (r: Option<String>)
    ensures
        match r {
            Some(id) => room_in_subject(subject@) == Some(id@),
            None => room_in_subject(subject@) is None,
        },
{
    proof {
        reveal_strlit("room.");
        reveal_strlit(".system");
    }
    let s = chars_of(subject);
    let n: usize = s.len();
    if n <= 12 {
        return None;
    }
    let head = copy_range(&s, 0, 5);
    let tail = copy_range(&s, n - 7, n);
    proof {
        assert(head@ =~= s@.take(5));
        assert(tail@ =~= s@.skip(s@.len() - 7));
    }
    if crate::text::same_text(string_of(&head).as_str(), "room.") && crate::text::same_text(
        string_of(&tail).as_str(),
        ".system",
    ) {
        Some(string_of(&copy_range(&s, 5, n - 7)))
    } else {
        None
    }
}

/// What a message on a room's subject tells the store.
pub open spec fn decoded<E>(
    subject: Seq<char>,
    packet_type: Result<PacketType, E>,
    beacon: Result<HealthBeaconPacket, E>,
) -> Result<Option<(Seq<char>, u32, Float32)>, E> {
    match packet_type {
        Err(e) => Err(e),
        Ok(t) => if t !is HealthBeacon {
            Ok(None)
        } else {
            match beacon {
                Err(e) => Err(e),
                Ok(b) => match room_in_subject(subject) {
                    Some(room) => Ok(Some((room, b.participant_count, b.cpu_load))),
                    None => Ok(None),
                },
            }
        },
    }
}

/// What a message on a room's subject tells the store: the room by the subject, the
/// rest by the beacon. `packet_type` is what the message was read as, `beacon` what
/// its inside was read as; the latter counts only where the former says beacon.
/// Other messages, and beacons on other subjects, tell nothing.
pub fn decode_beacon<E>(
    subject: &str,
    packet_type: Result<PacketType, E>,
    beacon: Result<HealthBeaconPacket, E>,
) -> (r: Result<Option<(String, u32, Float32)>, E>)
    ensures
        match r {
            Ok(Some((room, count, cpu))) => decoded(subject@, packet_type, beacon) == Ok::<
                Option<(Seq<char>, u32, Float32)>,
                E,
            >(Some((room@, count, cpu))),
            Ok(None) => decoded(subject@, packet_type, beacon) == Ok::<
                Option<(Seq<char>, u32, Float32)>,
                E,
            >(None),
            Err(e) => decoded(subject@, packet_type, beacon) == Err::<
                Option<(Seq<char>, u32, Float32)>,
                E,
            >(e),
        },
{
    match packet_type {
        Err(e) => Err(e),
        Ok(t) => {
            if !matches!(t, PacketType::HealthBeacon) {
                return Ok(None);
            }
            match beacon {
                Err(e) => Err(e),
                Ok(b) => match room_id_from_subject(subject) {
                    Some(room) => Ok(Some((room, b.participant_count, b.cpu_load))),
                    None => Ok(None),
                },
            }
        },
    }
}

/// The store after a beacon on `room_id` came in.
pub open spec fn after_beacon(
    store: Map<Seq<char>, RoomSpilloverState>,
    room_id: Seq<char>,
    owner_count: u32,
    owner_cpu: Float32,
    prune_horizon: u64,
    now: u64,
) -> Map<Seq<char>, RoomSpilloverState> {
    without_expired(
        store.insert(room_id, RoomSpilloverState { owner_count, owner_cpu, last_seen: now }),
        prune_horizon,
        now,
    )
}

/// Takes in a beacon on `room_id`, as its subject names it, and drops the reports
/// that are `prune_horizon` old or older.
pub fn ingest_beacon(
    store: &mut SpilloverStore,
    room_id: &str,
    owner_count: u32,
    owner_cpu: Float32,
    prune_horizon: u64,
    now: u64,
)
    ensures
        final(store)@ == without_expired(
            old(store)@.insert(
                room_id@,
                RoomSpilloverState { owner_count, owner_cpu, last_seen: now },
            ),
            prune_horizon,
            now,
        ),
        final(store)@ == after_beacon(
            old(store)@,
            room_id@,
            owner_count,
            owner_cpu,
            prune_horizon,
            now,
        ),
{
    store.record(room_id, RoomSpilloverState { owner_count, owner_cpu, last_seen: now });
    store.prune_stale(prune_horizon, now);
}

/// The store has a report on the room that says, freshly, that its owner is loaded.
pub open spec fn spills(
    store: Map<Seq<char>, RoomSpilloverState>,
    room_id: Seq<char>,
    now: u64,
) -> bool {
    report_on(store, room_id) matches Some(s) && s.spilled_over(now)
}

/// A beacon reaches those who ask for its room: the subject that the owner publishes
/// on names the room under which readers look, spaces or not, and what is recorded
/// under that name is what they find.
pub proof fn law_beacon_reaches_its_readers(
    room_id: Seq<char>,
    store: Map<Seq<char>, RoomSpilloverState>,
    state: RoomSpilloverState,
)
    requires
        room_id.len() > 0,
    ensures
        room_in_subject(crate::health_beacon::subject_of(room_id)) == Some(
            crate::health_beacon::normalized(room_id),
        ),
        report_on(store.insert(crate::health_beacon::normalized(room_id), state), room_id) == Some(
            state,
        ),
{
    reveal_strlit("room.");
    reveal_strlit(".system");
    let n = crate::health_beacon::normalized(room_id);
    let s = crate::health_beacon::subject_of(room_id);
    assert(s.take(5) =~= "room."@);
    assert(s.skip(s.len() - 7) =~= ".system"@);
    assert(s.subrange(5, s.len() - 7) =~= n);
}

/// A report says nothing once the freshness window has passed, at that time and at
/// every later one.
pub proof fn law_old_report_never_spills(state: RoomSpilloverState, now: u64, later: u64)
    requires
        now <= later,
        crate::room_state::age(now, state.last_seen) >= SPILLOVER_FRESHNESS_WINDOW,
    ensures
        !state.spilled_over(later),
{
}

/// Pruning with a horizon no shorter than the freshness window changes no answer,
/// for any room, then or later.
pub proof fn law_prune_changes_no_answer(
    store: Map<Seq<char>, RoomSpilloverState>,
    max_age: u64,
    room_id: Seq<char>,
    now: u64,
    later: u64,
)
    requires
        now <= later,
        max_age >= SPILLOVER_FRESHNESS_WINDOW,
    ensures
        spills(without_expired(store, max_age, now), room_id, later) == spills(
            store,
            room_id,
            later,
        ),
{
}

/// A beacon that has just come in is found, if the horizon is not 0.
pub proof fn law_fresh_beacon_survives_its_prune(
    store: Map<Seq<char>, RoomSpilloverState>,
    room_id: Seq<char>,
    state: RoomSpilloverState,
    prune_horizon: u64,
)
    requires
        prune_horizon > 0,
    ensures
        without_expired(store.insert(room_id, state), prune_horizon, state.last_seen).contains_key(
            room_id,
        ),
        without_expired(
            store.insert(room_id, state),
            prune_horizon,
            state.last_seen,
        )[room_id] == state,
{
}

/// A room spills over exactly if there is a report on it that is less than 15 seconds
/// old and tells of more than 180 participants or of a load above 0.80.
pub proof fn law_when_a_room_spills(
    store: Map<Seq<char>, RoomSpilloverState>,
    room_id: Seq<char>,
    now: u64,
)
    ensures
        ({
            let key = crate::health_beacon::normalized(room_id);
            let s = store[key];
            spills(store, room_id, now) <==> store.contains_key(key) && now < s.last_seen
                + 15_000_000_000 && (s.owner_count > 180 || 0x3F4C_CCCD < s.owner_cpu.bits
                <= 0x7F80_0000)
        }),
{
}

/// Pruning keeps exactly the reports that are younger than the horizon, as they are,
/// and the others are the ones that are counted.
pub proof fn law_prune_keeps_the_young(
    store: Map<Seq<char>, RoomSpilloverState>,
    max_age: u64,
    now: u64,
    key: Seq<char>,
)
    ensures
        ({
            let after = without_expired(store, max_age, now);
            let young = max_age > 0 && now < store[key].last_seen + max_age;
            &&& after.contains_key(key) <==> store.contains_key(key) && young
            &&& after.contains_key(key) ==> after[key] == store[key]
            &&& expired_rooms(store, max_age, now).contains(key) <==> store.contains_key(key)
                && !young
            &&& store.dom().finite() ==> after.dom().len() + expired_rooms(
                store,
                max_age,
                now,
            ).len() == store.dom().len()
        }),
{
    let after = without_expired(store, max_age, now);
    let gone = expired_rooms(store, max_age, now);
    if store.dom().finite() {
        assert(after.dom().subset_of(store.dom()));
        assert(gone.subset_of(store.dom()));
        vstd::set_lib::lemma_len_subset(after.dom(), store.dom());
        vstd::set_lib::lemma_len_subset(gone, store.dom());
        assert(after.dom().disjoint(gone));
        vstd::set_lib::lemma_set_disjoint_lens(after.dom(), gone);
        assert(after.dom().union(gone) =~= store.dom());
    }
}

/// A subject speaks of a room exactly if it is `room.`, the room's id, which is not
/// empty, and `.system`.
pub proof fn law_subject_names_its_room(subject: Seq<char>, room_id: Seq<char>)
    ensures
        room_in_subject(subject) == Some(room_id) <==> room_id.len() > 0 && subject == "room."@
            + room_id + ".system"@,
{
    reveal_strlit("room.");
    reveal_strlit(".system");
    let whole = "room."@ + room_id + ".system"@;
    if room_id.len() > 0 && subject == whole {
        assert(subject.take(5) =~= "room."@);
        assert(subject.skip(subject.len() - 7) =~= ".system"@);
        assert(subject.subrange(5, subject.len() - 7) =~= room_id);
    }
    if room_in_subject(subject) == Some(room_id) {
        assert forall|i: int| 0 <= i < subject.len() implies subject[i] == whole[i] by {
            if i < 5 {
                assert(subject.take(5)[i] == subject[i]);
            } else if i >= subject.len() - 7 {
                assert(subject.skip(subject.len() - 7)[i - (subject.len() - 7)] == subject[i]);
            }
        }
        assert(subject =~= whole);
    }
}

/// What a message tells: only a beacon on a room's subject tells anything, and it
/// tells the room that the subject names with the count and the load that it carries.
/// A message that cannot be read is an error; the inside of one that is no beacon is
/// not looked at.
pub proof fn law_only_beacons_tell<E>(
    subject: Seq<char>,
    packet_type: Result<PacketType, E>,
    beacon: Result<HealthBeaconPacket, E>,
)
    ensures
        ({
            let told = decoded(subject, packet_type, beacon);
            &&& packet_type is Err ==> told is Err
            &&& (packet_type matches Ok(t) && t != PacketType::HealthBeacon) ==> told is Ok
                && told->Ok_0 is None
            &&& (packet_type matches Ok(t) && t == PacketType::HealthBeacon) && beacon is Err
                ==> told is Err
            &&& (packet_type matches Ok(t) && t == PacketType::HealthBeacon) && beacon is Ok ==> {
                &&& told is Ok
                &&& told->Ok_0 matches Some((room, count, cpu)) ==> {
                    &&& room_in_subject(subject) == Some(room)
                    &&& count == beacon->Ok_0.participant_count
                    &&& cpu == beacon->Ok_0.cpu_load
                }
                &&& told->Ok_0 is None <==> room_in_subject(subject) is None
            }
        }),
{
}

/// A beacon replaces the report on its room by what it tells, as of now, and leaves the
/// reports on other rooms that are younger than the horizon as they are.
pub proof fn law_beacon_replaces_the_report(
    store: Map<Seq<char>, RoomSpilloverState>,
    room_id: Seq<char>,
    owner_count: u32,
    owner_cpu: Float32,
    prune_horizon: u64,
    now: u64,
    other: Seq<char>,
)
    requires
        prune_horizon > 0,
        other != room_id,
    ensures
        ({
            let after = after_beacon(store, room_id, owner_count, owner_cpu, prune_horizon, now);
            &&& after.contains_key(room_id)
            &&& after[room_id].owner_count == owner_count
            &&& after[room_id].owner_cpu == owner_cpu
            &&& after[room_id].last_seen == now
            &&& after.contains_key(other) <==> store.contains_key(other) && now
                < store[other].last_seen + prune_horizon
            &&& after.contains_key(other) ==> after[other] == store[other]
        }),
{
}

} // verus!
