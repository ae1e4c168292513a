//! Per-room membership, capabilities and the registry of remote publishers.
use std::collections::{HashMap, HashSet};
use std::sync::Arc;

use crate::float32::Float32;
use crate::ids::{sorted_keys, SessionId};
use crate::packet::BandwidthEstimate;

use vstd::prelude::*;

verus! {

broadcast use vstd::std_specs::hash::group_hash_axioms;

/// Client supports the routing header on media packets.
pub const CAP_SFU_ROUTING_HEADER: u32 = 1;

/// Client supports layered (scalable) video encoding.
pub const CAP_SVC: u32 = 2;

/// Client declares subscriptions.
pub const CAP_SUBSCRIPTION: u32 = 4;

/// A bandwidth report further than this from the stored one is significant.
pub const BWE_INVALIDATE_ABS_KBPS: u32 = 50;

/// A bandwidth report that differs from the stored one by more than this share
/// of it, in percent, is significant.
pub const BWE_INVALIDATE_REL_PCT: u32 = 10;

/// Maximum number of remote publishers tracked per room.
pub const MAX_REMOTE_PUBLISHERS: usize = 32;

/// Age past which an unrefreshed remote publisher is dropped: 10 s.
pub const REMOTE_PUBLISHER_TTL: u64 = 10_000_000_000;

/// Age from which a tracked remote publisher is worth refreshing: 1 s.
pub const REMOTE_PUBLISHER_LIVENESS_THROTTLE: u64 = 1_000_000_000;

/// Nanoseconds from `then` to `now`, zero if `then` lies ahead.
pub open spec fn age(now: u64, then: u64) -> int {
    if now >= then {
        now - then
    } else {
        0
    }
}

/// One member of the room.
#[derive(Debug, Clone, Copy, PartialEq, Eq, Structural)]
pub struct MemberEntry {
    pub session_id: SessionId,
    pub joined_at: u64,
    /// Capability bits that the client announced.
    pub capabilities: u32,
    pub last_speaker_score: Float32,
    pub is_speaking: bool,
    /// Observers receive media but send none.
    pub is_observer: bool,
    /// The last significant downlink estimate that the client reported.
    pub bandwidth_estimate: Option<BandwidthEstimate>,
    /// When the client last reported an estimate, significant or not.
    pub bandwidth_estimate_updated_at: Option<u64>,
}

/// One tracked remote publisher.
#[derive(Debug, Clone, Copy, PartialEq, Eq, Structural)]
pub struct RemotePublisherEntry {
    /// When its media was last noted.
    pub last_seen: u64,
    /// Whether it has shown video since it was registered.
    pub has_video: bool,
}

/// Senders whose media reaches this room from elsewhere, though they are not
/// members of it.
///
/// `audio` holds every such sender, `video` those that have shown video.
#[derive(Debug)]
pub struct RemotePublishers {
    pub audio: HashSet<SessionId>,
    pub video: HashSet<SessionId>,
}

/// Mathematical view of [`RemotePublishers`].
#[verifier::ext_equal]
pub struct RemoteView {
    pub audio: Set<SessionId>,
    pub video: Set<SessionId>,
}

impl View for RemotePublishers {
    type V = RemoteView;

    open spec fn view(&self) -> RemoteView {
        RemoteView { audio: self.audio@, video: self.video@ }
    }
}

/// No remote publisher at all.
pub open spec fn no_remotes() -> RemoteView {
    RemoteView { audio: Set::empty(), video: Set::empty() }
}

impl RemotePublishers {
    /// An empty snapshot.
    pub fn new() -> (r: Self)
        ensures
            r@ == no_remotes(),
    {
        RemotePublishers { audio: HashSet::new(), video: HashSet::new() }
    }
}

impl Default for RemotePublishers {
    fn default() -> (r: Self)
        ensures
            r@ == no_remotes(),
    {
        RemotePublishers::new()
    }
}

/// Authoritative state of one room.
#[derive(Debug)]
pub struct RoomState {
    pub room_id: String,
    pub members: HashMap<SessionId, MemberEntry>,
    /// The ids of `members`, shared with readers.
    pub members_snapshot: Arc<HashSet<SessionId>>,
    /// Counts the changes of the two snapshots, modulo 2^64.
    pub members_generation: u64,
    pub remote_publishers: HashMap<SessionId, RemotePublisherEntry>,
    /// What subscriptions see of `remote_publishers`, shared with readers.
    pub remote_publishers_snapshot: Arc<RemotePublishers>,
}

/// Mathematical view of a [`RoomState`].
#[verifier::ext_equal]
pub struct RoomView {
    pub room_id: Seq<char>,
    pub members: Map<SessionId, MemberEntry>,
    pub members_snapshot: Set<SessionId>,
    pub generation: u64,
    pub registry: Map<SessionId, RemotePublisherEntry>,
    pub remotes: RemoteView,
}

impl View for RoomState {
    type V = RoomView;

    open spec fn view(&self) -> RoomView {
        RoomView {
            room_id: self.room_id@,
            members: self.members@,
            members_snapshot: self.members_snapshot@,
            generation: self.members_generation,
            registry: self.remote_publishers@,
            remotes: self.remote_publishers_snapshot@,
        }
    }
}

/// What subscriptions see of a registry.
pub open spec fn remotes_of(registry: Map<SessionId, RemotePublisherEntry>) -> RemoteView {
    RemoteView {
        audio: registry.dom(),
        video: registry.dom().filter(|s: SessionId| registry[s].has_video),
    }
}

/// The entries of `registry` that are young enough at `now`.
pub open spec fn live_entries(
    registry: Map<SessionId, RemotePublisherEntry>,
    now: u64,
) -> Map<SessionId, RemotePublisherEntry> {
    Map::new(
        |s: SessionId|
            registry.contains_key(s) && age(now, registry[s].last_seen) <= REMOTE_PUBLISHER_TTL,
        |s: SessionId| registry[s],
    )
}

/// `s` is the entry of `registry` that was seen longest ago; of several, the one
/// with the smallest id.
pub open spec fn is_oldest(
    registry: Map<SessionId, RemotePublisherEntry>,
    s: SessionId,
) -> bool {
    &&& registry.contains_key(s)
    &&& forall|t: SessionId| #[trigger]
        registry.contains_key(t) ==> registry[s].last_seen < registry[t].last_seen || (
        registry[s].last_seen == registry[t].last_seen && s <= t)
}

/// The entry of `registry` that was seen longest ago.
pub open spec fn oldest(registry: Map<SessionId, RemotePublisherEntry>) -> SessionId {
    choose|s: SessionId| is_oldest(registry, s)
}

/// The registry without its oldest entry, if it is full.
pub open spec fn make_room(
    registry: Map<SessionId, RemotePublisherEntry>,
) -> Map<SessionId, RemotePublisherEntry> {
    if registry.dom().len() >= MAX_REMOTE_PUBLISHERS {
        registry.remove(oldest(registry))
    } else {
        registry
    }
}

/// Whether a report of `new_kbps` differs enough from the stored estimate.
pub open spec fn significant_change(prev: Option<BandwidthEstimate>, new_kbps: u32) -> bool {
    match prev {
        None => true,
        Some(e) => {
            let diff = if e.estimated_downlink_kbps >= new_kbps {
                e.estimated_downlink_kbps - new_kbps
            } else {
                new_kbps - e.estimated_downlink_kbps
            };
            diff > BWE_INVALIDATE_ABS_KBPS || diff * 100 > e.estimated_downlink_kbps
                * BWE_INVALIDATE_REL_PCT
        },
    }
}

/// A member that has just joined.
pub open spec fn joined(sid: SessionId, capabilities: u32, now: u64) -> MemberEntry {
    MemberEntry {
        session_id: sid,
        joined_at: now,
        capabilities,
        last_speaker_score: Float32 { bits: 0 },
        is_speaking: false,
        is_observer: false,
        bandwidth_estimate: None,
        bandwidth_estimate_updated_at: None,
    }
}

/// The members that send media, by ascending id.
pub open spec fn sending_members(members: Map<SessionId, MemberEntry>) -> Seq<MemberEntry> {
    crate::ids::ascending(
        members.dom().filter(|s: SessionId| !members[s].is_observer),
    ).map_values(|s: SessionId| members[s])
}

/// `sid` is a member that has every bit of `bits`.
pub open spec fn has_capabilities(
    members: Map<SessionId, MemberEntry>,
    sid: SessionId,
    bits: u32,
) -> bool {
    members.contains_key(sid) && members[sid].capabilities & bits == bits
}

impl RoomView {
    /// The snapshots say what they are snapshots of, no member is tracked as a
    /// remote publisher, and the registry keeps its bound.
    pub open spec fn wf(self) -> bool {
        &&& self.members.dom().finite()
        &&& self.members_snapshot == self.members.dom()
        &&& self.remotes == remotes_of(self.registry)
        &&& self.registry.dom().finite()
        &&& self.registry.dom().len() <= MAX_REMOTE_PUBLISHERS
        &&& self.registry.dom().disjoint(self.members.dom())
    }

    /// The room with a fresh snapshot of its members.
    pub open spec fn members_rebuilt(self) -> RoomView {
        RoomView {
            members_snapshot: self.members.dom(),
            generation: self.generation.wrapping_add(1),
            ..self
        }
    }

    /// The room with a fresh snapshot of its registry.
    pub open spec fn remotes_rebuilt(self) -> RoomView {
        RoomView {
            remotes: remotes_of(self.registry),
            generation: self.generation.wrapping_add(1),
            ..self
        }
    }

    /// The room after a remote publisher was dropped.
    pub open spec fn after_prune(self, sid: SessionId) -> RoomView {
        if self.registry.contains_key(sid) {
            (RoomView { registry: self.registry.remove(sid), ..self }).remotes_rebuilt()
        } else {
            self
        }
    }

    /// The room after a member joined or came back.
    pub open spec fn after_insert(self, sid: SessionId, capabilities: u32, now: u64) -> RoomView {
        let added = RoomView {
            members: self.members.insert(sid, joined(sid, capabilities, now)),
            ..self
        };
        if self.members.contains_key(sid) {
            added.after_prune(sid)
        } else {
            added.members_rebuilt().after_prune(sid)
        }
    }

    /// The room after a member left.
    pub open spec fn after_remove(self, sid: SessionId) -> RoomView {
        if self.members.contains_key(sid) {
            (RoomView { members: self.members.remove(sid), ..self }).members_rebuilt()
        } else {
            self
        }
    }

    /// The room after media of `sid` was noted.
    pub open spec fn after_note(self, sid: SessionId, is_video: bool, now: u64) -> RoomView {
        let live = live_entries(self.registry, now);
        if self.members.contains_key(sid) {
            self
        } else if live.contains_key(sid) {
            let entry = RemotePublisherEntry {
                last_seen: now,
                has_video: live[sid].has_video || is_video,
            };
            let noted = RoomView { registry: live.insert(sid, entry), ..self };
            if live.dom() == self.registry.dom() && entry.has_video == live[sid].has_video {
                noted
            } else {
                noted.remotes_rebuilt()
            }
        } else {
            let entry = RemotePublisherEntry { last_seen: now, has_video: is_video };
            (RoomView { registry: make_room(live).insert(sid, entry), ..self }).remotes_rebuilt()
        }
    }

    /// Whether media of `sid` has to be noted.
    pub open spec fn write_needed(self, sid: SessionId, is_video: bool, now: u64) -> bool {
        &&& !self.members.contains_key(sid)
        &&& {
            ||| !self.registry.contains_key(sid)
            ||| is_video && !self.registry[sid].has_video
            ||| age(now, self.registry[sid].last_seen) >= REMOTE_PUBLISHER_LIVENESS_THROTTLE
        }
    }

    /// The room after a member reported its downlink.
    pub open spec fn after_report(
        self,
        sid: SessionId,
        est: BandwidthEstimate,
        now: u64,
    ) -> RoomView {
        if self.members.contains_key(sid) {
            let m = self.members[sid];
            let stored = MemberEntry {
                bandwidth_estimate: if significant_change(
                    m.bandwidth_estimate,
                    est.estimated_downlink_kbps,
                ) {
                    Some(est)
                } else {
                    m.bandwidth_estimate
                },
                bandwidth_estimate_updated_at: Some(now),
                ..m
            };
            RoomView { members: self.members.insert(sid, stored), ..self }
        } else {
            self
        }
    }
}

/// Two entries that were both seen longest ago are one.
proof fn lemma_oldest_unique(
    registry: Map<SessionId, RemotePublisherEntry>,
    a: SessionId,
    b: SessionId,
)
    requires
        is_oldest(registry, a),
        is_oldest(registry, b),
    ensures
        a == b,
{
}

impl RoomState {
    /// An empty room.
    pub fn new(room_id: String) -> (r: Self)
        ensures
            r@.wf(),
            r@ == (RoomView {
                room_id: room_id@,
                members: Map::empty(),
                members_snapshot: Set::empty(),
                generation: 0,
                registry: Map::empty(),
                remotes: no_remotes(),
            }),
    {
        let r = RoomState {
            room_id,
            members: HashMap::new(),
            members_snapshot: Arc::new(HashSet::new()),
            members_generation: 0,
            remote_publishers: HashMap::new(),
            remote_publishers_snapshot: Arc::new(RemotePublishers::new()),
        };
        proof {
            assert(r@.remotes =~= remotes_of(r@.registry));
        }
        r
    }

    /// Replaces the members snapshot by a fresh one.
    fn rebuild_members_snapshot(&mut self)
        ensures
            final(self)@ == old(self)@.members_rebuilt(),
    {
        let keys = sorted_keys(&self.members);
        let mut snapshot: HashSet<SessionId> = HashSet::new();
        let mut i: usize = 0;
        proof {
            assert(snapshot@ =~= keys@.take(0).to_set());
        }
        while i < keys.len()
            invariant
                i <= keys@.len(),
                snapshot@ == keys@.take(i as int).to_set(),
            decreases keys@.len() - i,
        {
            snapshot.insert(keys[i]);
            proof {
                crate::ids::lemma_prefix_set(keys@, i as int);
            }
            i = i + 1;
        }
        proof {
            assert(keys@.take(keys@.len() as int) =~= keys@);
        }
        self.members_snapshot = Arc::new(snapshot);
        self.members_generation = self.members_generation.wrapping_add(1);
    }

    /// The ids of the current members, as a shared snapshot.
    pub fn members_snapshot(&self) -> (r: Arc<HashSet<SessionId>>)
        ensures
            r@ == self@.members_snapshot,
    {
        self.members_snapshot.clone()
    }

    /// The members snapshot with the generation that identifies it.
    pub fn members_snapshot_with_generation(&self) -> (r: (Arc<HashSet<SessionId>>, u64))
        ensures
            r.0@ == self@.members_snapshot,
            r.1 == self@.generation,
    {
        (self.members_snapshot.clone(), self.members_generation)
    }

    /// The remote-publisher snapshot with the generation that identifies it. It
    /// is the generation of the members snapshot: either snapshot moves it.
    pub fn remote_publishers_snapshot_with_generation(&self) -> (r: (Arc<RemotePublishers>, u64))
        ensures
            r.0@ == self@.remotes,
            r.1 == self@.generation,
    {
        (self.remote_publishers_snapshot.clone(), self.members_generation)
    }

    /// Whether media of `sid` has to be noted: it is not a member, and it is new,
    /// shows video for the first time, or was last noted a while ago.
    pub fn remote_publisher_write_needed(
        &self,
        sid: SessionId,
        is_video: bool,
        now: u64,
    ) -> (needed: bool)
        ensures
            needed == self@.write_needed(sid, is_video, now),
    {
        if self.members.contains_key(&sid) {
            return false;
        }
        match self.remote_publishers.get(&sid) {
            None => true,
            Some(entry) => {
                if is_video && !entry.has_video {
                    return true;
                }
                now.saturating_sub(entry.last_seen) >= REMOTE_PUBLISHER_LIVENESS_THROTTLE
            },
        }
    }

    /// Replaces the remote-publisher snapshot by a fresh one.
    fn rebuild_remote_publishers_snapshot(&mut self)
        ensures
            final(self)@ == old(self)@.remotes_rebuilt(),
    {
        let ghost registry = self@.registry;
        let keys = sorted_keys(&self.remote_publishers);
        let mut audio: HashSet<SessionId> = HashSet::new();
        let mut video: HashSet<SessionId> = HashSet::new();
        let mut i: usize = 0;
        proof {
            assert(audio@ =~= keys@.take(0).to_set());
            assert(video@ =~= keys@.take(0).to_set().filter(
                |s: SessionId| registry[s].has_video,
            ));
        }
        while i < keys.len()
            invariant
                i <= keys@.len(),
                registry == self.remote_publishers@,
                crate::ids::lists_ascending(keys@, registry.dom()),
                audio@ == keys@.take(i as int).to_set(),
                video@ == keys@.take(i as int).to_set().filter(
                    |s: SessionId| registry[s].has_video,
                ),
            decreases keys@.len() - i,
        {
            let sid: SessionId = keys[i];
            proof {
                assert(keys@.to_set().contains(sid));
                crate::ids::lemma_prefix_set(keys@, i as int);
            }
            audio.insert(sid);
            match self.remote_publishers.get(&sid) {
                Some(entry) => {
                    if entry.has_video {
                        video.insert(sid);
                    }
                },
                None => {},
            }
            proof {
                assert(video@ =~= keys@.take(i + 1).to_set().filter(
                    |s: SessionId| registry[s].has_video,
                ));
            }
            i = i + 1;
        }
        proof {
            assert(keys@.take(keys@.len() as int) =~= keys@);
            assert(video@ =~= remotes_of(registry).video);
        }
        self.remote_publishers_snapshot = Arc::new(RemotePublishers { audio, video });
        self.members_generation = self.members_generation.wrapping_add(1);
    }

    /// Drops the registry entries that are too old at `now`; says whether there
    /// were any.
    fn reap_stale(&mut self, now: u64) -> (reaped: bool)
        ensures
            final(self)@ == (RoomView {
                registry: live_entries(old(self)@.registry, now),
                ..old(self)@
            }),
            reaped == (live_entries(old(self)@.registry, now).dom() != old(self)@.registry.dom()),
    {
        let ghost before = self@;
        let keys = sorted_keys(&self.remote_publishers);
        let mut reaped = false;
        let mut i: usize = 0;
        let ghost stale = |s: SessionId|
            age(now, before.registry[s].last_seen) > REMOTE_PUBLISHER_TTL;
        while i < keys.len()
            invariant
                i <= keys@.len(),
                stale == (|s: SessionId|
                    age(now, before.registry[s].last_seen) > REMOTE_PUBLISHER_TTL),
                crate::ids::lists_ascending(keys@, before.registry.dom()),
                self@.registry == Map::new(
                    |s: SessionId|
                        before.registry.contains_key(s) && !(keys@.take(i as int).contains(s)
                            && stale(s)),
                    |s: SessionId| before.registry[s],
                ),
                self@ == (RoomView { registry: self@.registry, ..before }),
                reaped == exists|k: int| 0 <= k < i && stale(#[trigger] keys@[k]),
            decreases keys@.len() - i,
        {
            let sid: SessionId = keys[i];
            proof {
                assert(keys@.to_set().contains(sid));
                assert forall|s: SessionId| keys@.take(i + 1).contains(s) <==> (keys@.take(
                    i as int,
                ).contains(s) || s == sid) by {
                    crate::ids::lemma_prefix_set(keys@, i as int);
                    assert(keys@.take(i + 1).to_set().contains(s) <==> keys@.take(i + 1).contains(
                        s,
                    ));
                    assert(keys@.take(i as int).to_set().contains(s) <==> keys@.take(
                        i as int,
                    ).contains(s));
                }
                assert(!keys@.take(i as int).contains(sid)) by {
                    if keys@.take(i as int).contains(sid) {
                        let k = choose|k: int| 0 <= k < i && keys@.take(i as int)[k] == sid;
                        assert(keys@[k] < keys@[i as int]);
                    }
                }
            }
            let ghost was_reaped = reaped;
            match self.remote_publishers.get(&sid) {
                Some(entry) => {
                    let too_old = now.saturating_sub(entry.last_seen) > REMOTE_PUBLISHER_TTL;
                    proof {
                        assert(too_old == stale(keys@[i as int]));
                    }
                    if too_old {
                        self.remote_publishers.remove(&sid);
                        reaped = true;
                    }
                },
                None => {
                    assert(false);
                },
            }
            proof {
                assert(self@.registry =~= Map::new(
                    |s: SessionId|
                        before.registry.contains_key(s) && !(keys@.take(i + 1).contains(s)
                            && stale(s)),
                    |s: SessionId| before.registry[s],
                ));
                assert(reaped == (was_reaped || stale(keys@[i as int])));
                if was_reaped {
                    let k = choose|k: int| 0 <= k < i && stale(#[trigger] keys@[k]);
                    assert(0 <= k < i + 1 && stale(keys@[k]));
                }
            }
            i = i + 1;
        }
        proof {
            let live = live_entries(before.registry, now);
            assert forall|s: SessionId| before.registry.contains_key(s) implies keys@.take(
                keys@.len() as int,
            ).contains(s) by {
                assert(keys@.take(keys@.len() as int) =~= keys@);
                assert(keys@.to_set().contains(s));
            }
            assert(self@.registry =~= live);
            if reaped {
                let k = choose|k: int| 0 <= k < keys@.len() && stale(#[trigger] keys@[k]);
                assert(keys@.to_set().contains(keys@[k]));
                assert(before.registry.dom().contains(keys@[k]));
                assert(!live.dom().contains(keys@[k]));
            } else {
                assert forall|s: SessionId| before.registry.dom().contains(s) implies #[trigger]
                live.dom().contains(s) by {
                    assert(keys@.to_set().contains(s));
                    let k = choose|k: int| 0 <= k < keys@.len() && keys@[k] == s;
                    assert(!stale(keys@[k]));
                }
                assert(live.dom() =~= before.registry.dom());
            }
        }
        reaped
    }

    /// The registry entry that was seen longest ago.
    fn find_oldest(&self) -> (r: Option<SessionId>)
        ensures
            r matches Some(s) ==> s == oldest(self@.registry) && self@.registry.contains_key(s),
            r is None ==> self@.registry.dom().len() == 0,
    {
        let keys = sorted_keys(&self.remote_publishers);
        let ghost registry = self@.registry;
        proof {
            keys@.unique_seq_to_set();
        }
        if keys.len() == 0 {
            return None;
        }
        let mut best: SessionId = keys[0];
        proof {
            assert(keys@.to_set().contains(keys@[0]));
        }
        let mut best_seen: u64 = match self.remote_publishers.get(&best) {
            Some(e) => e.last_seen,
            None => 0,
        };
        let mut i: usize = 1;
        while i < keys.len()
            invariant
                1 <= i <= keys@.len(),
                registry == self.remote_publishers@,
                crate::ids::lists_ascending(keys@, registry.dom()),
                registry.contains_key(best),
                best_seen == registry[best].last_seen,
                exists|k: int| 0 <= k < i && #[trigger] keys@[k] == best,
                forall|k: int|
                    0 <= k < i ==> best_seen < registry[#[trigger] keys@[k]].last_seen || (
                    best_seen == registry[keys@[k]].last_seen && best <= keys@[k]),
            decreases keys@.len() - i,
        {
            let sid: SessionId = keys[i];
            proof {
                assert(keys@.to_set().contains(sid));
                let k = choose|k: int| 0 <= k < i && #[trigger] keys@[k] == best;
                assert(keys@[k] < keys@[i as int]);
            }
            match self.remote_publishers.get(&sid) {
                Some(e) => {
                    if e.last_seen < best_seen {
                        best = sid;
                        best_seen = e.last_seen;
                    }
                },
                None => {},
            }
            proof {
                assert(exists|k: int| 0 <= k < i + 1 && #[trigger] keys@[k] == best) by {
                    if best == sid {
                        assert(keys@[i as int] == best);
                    }
                }
            }
            i = i + 1;
        }
        proof {
            assert(is_oldest(registry, best)) by {
                assert forall|t: SessionId| #[trigger] registry.contains_key(
                    t,
                ) implies registry[best].last_seen < registry[t].last_seen || (
                registry[best].last_seen == registry[t].last_seen && best <= t) by {
                    assert(keys@.to_set().contains(t));
                    let k = choose|k: int| 0 <= k < keys@.len() && keys@[k] == t;
                    assert(best_seen < registry[keys@[k]].last_seen || (best_seen
                        == registry[keys@[k]].last_seen && best <= keys@[k]));
                }
            }
            lemma_oldest_unique(registry, best, oldest(registry));
        }
        Some(best)
    }

    /// Notes media of `sid`, a sender that is not a member.
    ///
    /// Entries that were not noted for longer than [`REMOTE_PUBLISHER_TTL`] are
    /// dropped. A new sender is registered, if need be in the place of the one
    /// seen longest ago; a tracked one is refreshed. The snapshot and its
    /// generation move when a sender comes, goes or first shows video, and stay
    /// when one is merely refreshed. A member is never registered.
    pub fn note_remote_publisher(&mut self, sid: SessionId, is_video: bool, now: u64)
        requires
            old(self)@.wf(),
        ensures
            final(self)@.wf(),
            final(self)@ == old(self)@.after_note(sid, is_video, now),
    {
        let ghost before = self@;
        if self.members.contains_key(&sid) {
            return;
        }
        let mut changed: bool = self.reap_stale(now);
        let ghost live = self@.registry;
        proof {
            assert(live.dom().subset_of(before.registry.dom()));
            vstd::set_lib::lemma_len_subset(live.dom(), before.registry.dom());
        }
        match self.remote_publishers.get(&sid) {
            Some(entry) => {
                let had_video: bool = entry.has_video;
                if is_video && !had_video {
                    changed = true;
                }
                self.remote_publishers.insert(
                    sid,
                    RemotePublisherEntry { last_seen: now, has_video: had_video || is_video },
                );
                proof {
                    assert(self@.registry.dom() =~= live.dom());
                    if live.dom() == before.registry.dom() && (had_video || is_video)
                        == had_video {
                        assert(remotes_of(self@.registry).video =~= remotes_of(
                            before.registry,
                        ).video) by {
                            assert forall|s: SessionId| #[trigger] remotes_of(
                                self@.registry,
                            ).video.contains(s) <==> remotes_of(before.registry).video.contains(
                                s,
                            ) by {
                                assert(live.contains_key(s) <==> before.registry.contains_key(s));
                            }
                        }
                        assert(remotes_of(self@.registry) =~= remotes_of(before.registry));
                    }
                }
            },
            None => {
                if self.remote_publishers.len() >= MAX_REMOTE_PUBLISHERS {
                    match self.find_oldest() {
                        Some(oldest_sid) => {
                            self.remote_publishers.remove(&oldest_sid);
                        },
                        None => {},
                    }
                }
                proof {
                    assert(self@.registry == make_room(live));
                }
                self.remote_publishers.insert(
                    sid,
                    RemotePublisherEntry { last_seen: now, has_video: is_video },
                );
                changed = true;
            },
        }
        if changed {
            self.rebuild_remote_publishers_snapshot();
        }
    }

    /// Drops a sender from the registry, if it is there.
    pub fn prune_remote_publisher(&mut self, sid: SessionId)
        ensures
            old(self)@.wf() ==> final(self)@.wf(),
            final(self)@ == old(self)@.after_prune(sid),
    {
        let ghost before = self@;
        if self.remote_publishers.contains_key(&sid) {
            self.remote_publishers.remove(&sid);
            self.rebuild_remote_publishers_snapshot();
        }
    }

    /// Number of tracked remote publishers.
    pub fn remote_publisher_count(&self) -> (n: usize)
        ensures
            n == self@.registry.dom().len(),
    {
        self.remote_publishers.len()
    }

    /// Adds a member, or replaces the entry of one that came back.
    pub fn insert_member(&mut self, sid: SessionId, capabilities: u32, now: u64)
        requires
            old(self)@.wf(),
        ensures
            final(self)@.wf(),
            final(self)@ == old(self)@.after_insert(sid, capabilities, now),
    {
        let ghost before = self@;
        let entry = MemberEntry {
            session_id: sid,
            joined_at: now,
            capabilities,
            last_speaker_score: Float32 { bits: 0 },
            is_speaking: false,
            is_observer: false,
            bandwidth_estimate: None,
            bandwidth_estimate_updated_at: None,
        };
        let was_present = self.members.contains_key(&sid);
        self.members.insert(sid, entry);
        if was_present {
            proof {
                assert(self@.members.dom() =~= before.members.dom());
            }
        } else {
            self.rebuild_members_snapshot();
        }
        self.prune_remote_publisher(sid);
        proof {
            assert(self@.registry.dom() =~= before.registry.dom().remove(sid));
        }
    }

    /// Stores a member's downlink report. The report time is always kept; the
    /// estimate only where it differs enough from the stored one, which is what
    /// the result says. A report of an absent member is ignored.
    #[must_use]
    pub fn update_bandwidth_estimate(
        &mut self,
        sid: SessionId,
        est: &BandwidthEstimate,
        now: u64,
    ) -> (significant: bool)
        ensures
            old(self)@.wf() ==> final(self)@.wf(),
            final(self)@ == old(self)@.after_report(sid, *est, now),
            significant == (old(self)@.members.contains_key(sid) && significant_change(
                old(self)@.members[sid].bandwidth_estimate,
                est.estimated_downlink_kbps,
            )),
    {
        let ghost before = self@;
        let mut entry: MemberEntry = match self.members.get(&sid) {
            Some(m) => *m,
            None => {
                return false;
            },
        };
        entry.bandwidth_estimate_updated_at = Some(now);
        let new_kbps: u32 = est.estimated_downlink_kbps;
        let significant: bool = match entry.bandwidth_estimate {
            None => true,
            Some(prev) => {
                let prev_kbps: u32 = prev.estimated_downlink_kbps;
                let diff: u32 = if prev_kbps >= new_kbps {
                    prev_kbps - new_kbps
                } else {
                    new_kbps - prev_kbps
                };
                diff > BWE_INVALIDATE_ABS_KBPS || diff as u64 * 100 > prev_kbps as u64
                    * BWE_INVALIDATE_REL_PCT as u64
            },
        };
        if significant {
            entry.bandwidth_estimate = Some(*est);
        }
        self.members.insert(sid, entry);
        proof {
            assert(self@.members.dom() =~= before.members.dom());
        }
        significant
    }

    /// Removes a member, if it is there.
    pub fn remove_member(&mut self, sid: SessionId)
        requires
            old(self)@.wf(),
        ensures
            final(self)@.wf(),
            final(self)@ == old(self)@.after_remove(sid),
    {
        if self.members.contains_key(&sid) {
            self.members.remove(&sid);
            self.rebuild_members_snapshot();
        }
    }

    /// The capability bits of a member.
    pub fn get_capabilities(&self, sid: SessionId) -> (r: Option<u32>)
        ensures
            r == if self@.members.contains_key(sid) {
                Some(self@.members[sid].capabilities)
            } else {
                None
            },
    {
        match self.members.get(&sid) {
            Some(m) => Some(m.capabilities),
            None => None,
        }
    }

    /// Whether `sid` is a member that has every bit of `capability_bit`.
    pub fn supports(&self, sid: SessionId, capability_bit: u32) -> (r: bool)
        ensures
            r == (self@.members.contains_key(sid) && self@.members[sid].capabilities
                & capability_bit == capability_bit),
            r == has_capabilities(self@.members, sid, capability_bit),
    {
        match self.members.get(&sid) {
            Some(m) => (m.capabilities & capability_bit) == capability_bit,
            None => false,
        }
    }

    /// Number of members, observers among them.
    pub fn member_count(&self) -> (n: usize)
        ensures
            n == self@.members.dom().len(),
    {
        self.members.len()
    }

    /// The members that send media, by ascending id.
    pub fn senders(&self) -> (r: Vec<MemberEntry>)
        ensures
            ({
                let ids = crate::ids::ascending(
                    self@.members.dom().filter(|s: SessionId| !self@.members[s].is_observer),
                );
                r@ == ids.map_values(|s: SessionId| self@.members[s])
            }),
            r@ == sending_members(self@.members),
    {
        let keys = sorted_keys(&self.members);
        let ghost sends = |s: SessionId| !self@.members[s].is_observer;
        let ghost entry_of = |s: SessionId| self@.members[s];
        let mut r: Vec<MemberEntry> = Vec::new();
        let mut i: usize = 0;
        proof {
            reveal(Seq::filter);
            assert(r@ =~= keys@.take(0).filter(sends).map_values(entry_of));
        }
        while i < keys.len()
            invariant
                i <= keys@.len(),
                sends == (|s: SessionId| !self@.members[s].is_observer),
                entry_of == (|s: SessionId| self@.members[s]),
                crate::ids::lists_ascending(keys@, self@.members.dom()),
                r@ == keys@.take(i as int).filter(sends).map_values(entry_of),
            decreases keys@.len() - i,
        {
            let sid: SessionId = keys[i];
            proof {
                assert(keys@.to_set().contains(sid));
            }
            match self.members.get(&sid) {
                Some(m) => {
                    if !m.is_observer {
                        r.push(*m);
                    }
                },
                None => {},
            }
            proof {
                reveal(Seq::filter);
                assert(keys@.take(i + 1).drop_last() =~= keys@.take(i as int));
                assert(r@ =~= keys@.take(i + 1).filter(sends).map_values(entry_of));
            }
            i = i + 1;
        }
        proof {
            assert(keys@.take(keys@.len() as int) =~= keys@);
            crate::ids::lemma_filter_ascending(keys@, self@.members.dom(), sends);
            let set = self@.members.dom().filter(|s: SessionId| !self@.members[s].is_observer);
            assert(self@.members.dom().filter(sends) =~= set);
            crate::ids::lemma_is_ascending(keys@.filter(sends), set);
            assert(r@ =~= crate::ids::ascending(set).map_values(
                |s: SessionId| self@.members[s],
            ));
        }
        r
    }

    /// Whether any member sends media.
    pub fn has_senders(&self) -> (r: bool)
        ensures
            r == exists|s: SessionId|
                #[trigger] self@.members.contains_key(s) && !self@.members[s].is_observer,
            r == (sending_members(self@.members).len() > 0),
    {
        let keys = sorted_keys(&self.members);
        let mut i: usize = 0;
        while i < keys.len()
            invariant
                i <= keys@.len(),
                crate::ids::lists_ascending(keys@, self@.members.dom()),
                forall|k: int| 0 <= k < i ==> self@.members[#[trigger] keys@[k]].is_observer,
            decreases keys@.len() - i,
        {
            let sid: SessionId = keys[i];
            proof {
                assert(keys@.to_set().contains(sid));
            }
            match self.members.get(&sid) {
                Some(m) => {
                    if !m.is_observer {
                        proof {
                            assert(self@.members.contains_key(sid));
                            vstd::seq_lib::seq_to_set_is_finite(keys@);
                            lemma_sending_members(self@.members);
                        }
                        return true;
                    }
                },
                None => {},
            }
            i = i + 1;
        }
        proof {
            vstd::seq_lib::seq_to_set_is_finite(keys@);
            lemma_sending_members(self@.members);
            assert forall|s: SessionId| #[trigger]
                self@.members.contains_key(s) implies self@.members[s].is_observer by {
                assert(keys@.to_set().contains(s));
                let k = choose|k: int| 0 <= k < keys@.len() && keys@[k] == s;
                assert(self@.members[keys@[k]].is_observer);
            }
        }
        false
    }
}

impl Default for RoomState {
    fn default() -> (r: Self)
        ensures
            r@.wf(),
            r@ == (RoomView {
                room_id: Seq::empty(),
                members: Map::empty(),
                members_snapshot: Set::empty(),
                generation: 0,
                registry: Map::empty(),
                remotes: no_remotes(),
            }),
    {
        RoomState::new(String::new())
    }
}

/// Both rooms look alike to a subscription.
pub open spec fn same_inputs(a: RoomView, b: RoomView) -> bool {
    a.members_snapshot == b.members_snapshot && a.remotes == b.remotes
}

/// No operation changes what subscriptions see without moving the generation.
pub proof fn law_generation_moves_with_inputs(
    room: RoomView,
    sid: SessionId,
    capabilities: u32,
    is_video: bool,
    est: BandwidthEstimate,
    now: u64,
)
    requires
        room.wf(),
    ensures
        ({
            let after = room.after_insert(sid, capabilities, now);
            same_inputs(room, after) || after.generation != room.generation
        }),
        ({
            let after = room.after_remove(sid);
            same_inputs(room, after) || after.generation != room.generation
        }),
        ({
            let after = room.after_note(sid, is_video, now);
            same_inputs(room, after) || after.generation != room.generation
        }),
        ({
            let after = room.after_prune(sid);
            same_inputs(room, after) || after.generation != room.generation
        }),
        ({
            let after = room.after_report(sid, est, now);
            same_inputs(room, after) && after.generation == room.generation
        }),
{
}

/// What leaves the room as subscriptions see it leaves the generation too: a
/// member that comes back, the refresh of a tracked publisher, the removal of
/// someone who is not there.
pub proof fn law_no_op_keeps_generation(
    room: RoomView,
    sid: SessionId,
    capabilities: u32,
    is_video: bool,
    now: u64,
)
    requires
        room.wf(),
    ensures
        room.members.contains_key(sid) ==> {
            let after = room.after_insert(sid, capabilities, now);
            same_inputs(room, after) && after.generation == room.generation
        },
        !room.members.contains_key(sid) ==> room.after_remove(sid) == room,
        !room.registry.contains_key(sid) ==> room.after_prune(sid) == room,
        room.members.contains_key(sid) ==> room.after_note(sid, is_video, now) == room,
        live_entries(room.registry, now) == room.registry && room.registry.contains_key(sid) && (
        is_video ==> room.registry[sid].has_video) ==> {
            let after = room.after_note(sid, is_video, now);
            same_inputs(room, after) && after.generation == room.generation
        },
{
}

/// Membership and registry never overlap, the snapshots stay true and the
/// registry stays bounded, whatever is done to the room.
pub proof fn law_room_stays_well_formed(
    room: RoomView,
    sid: SessionId,
    capabilities: u32,
    is_video: bool,
    est: BandwidthEstimate,
    now: u64,
)
    requires
        room.wf(),
    ensures
        room.after_insert(sid, capabilities, now).wf(),
        room.after_remove(sid).wf(),
        room.after_note(sid, is_video, now).wf(),
        room.after_prune(sid).wf(),
        room.after_report(sid, est, now).wf(),
{
    let inserted = room.after_insert(sid, capabilities, now);
    assert(inserted.registry.dom() =~= room.registry.dom().remove(sid));
    assert(inserted.members.dom() =~= room.members.dom().insert(sid));
    let reported = room.after_report(sid, est, now);
    assert(reported.members.dom() =~= room.members.dom());
    let live = live_entries(room.registry, now);
    assert(live.dom().subset_of(room.registry.dom()));
    vstd::set_lib::lemma_len_subset(live.dom(), room.registry.dom());
    let noted = room.after_note(sid, is_video, now);
    if !room.members.contains_key(sid) {
        if live.contains_key(sid) {
            assert(noted.registry.dom() =~= live.dom());
            if live.dom() == room.registry.dom() && (live[sid].has_video || is_video)
                == live[sid].has_video {
                assert forall|s: SessionId| #[trigger]
                    remotes_of(noted.registry).video.contains(s) <==> remotes_of(
                        room.registry,
                    ).video.contains(s) by {
                    assert(live.contains_key(s) <==> room.registry.contains_key(s));
                }
                assert(remotes_of(noted.registry) =~= remotes_of(room.registry));
            }
        } else {
            let room_made = make_room(live);
            if live.dom().len() >= MAX_REMOTE_PUBLISHERS {
                lemma_oldest_exists(live);
                assert(live.contains_key(oldest(live)));
            }
            assert(room_made.dom().len() < MAX_REMOTE_PUBLISHERS);
            assert(noted.registry.dom() =~= room_made.dom().insert(sid));
        }
    }
}

/// A registry with entries has an oldest one.
proof fn lemma_oldest_exists(registry: Map<SessionId, RemotePublisherEntry>)
    requires
        registry.dom().finite(),
        registry.dom().len() > 0,
    ensures
        is_oldest(registry, oldest(registry)),
    decreases registry.dom().len(),
{
    let a = registry.dom().choose();
    let rest = registry.remove(a);
    assert(rest.dom() =~= registry.dom().remove(a));
    if rest.dom().len() == 0 {
        assert forall|t: SessionId| #[trigger] registry.contains_key(t) implies t == a by {
            if t != a {
                assert(rest.dom().contains(t));
            }
        }
        assert(is_oldest(registry, a));
    } else {
        lemma_oldest_exists(rest);
        let b = oldest(rest);
        assert(rest.contains_key(b));
        let best = if registry[a].last_seen < registry[b].last_seen || (registry[a].last_seen
            == registry[b].last_seen && a <= b) {
            a
        } else {
            b
        };
        assert forall|t: SessionId| #[trigger] registry.contains_key(
            t,
        ) implies registry[best].last_seen < registry[t].last_seen || (registry[best].last_seen
            == registry[t].last_seen && best <= t) by {
            if t != a {
                assert(rest.contains_key(t));
            }
        }
        assert(is_oldest(registry, best));
    }
}

/// Noting a sender that is not a member registers it, with the video flag that
/// it has shown, and drops everyone who was silent for too long.
pub proof fn law_note_registers_and_reaps(
    room: RoomView,
    sid: SessionId,
    is_video: bool,
    now: u64,
    other: SessionId,
)
    requires
        room.wf(),
        !room.members.contains_key(sid),
    ensures
        ({
            let after = room.after_note(sid, is_video, now);
            &&& after.registry.contains_key(sid)
            &&& after.registry[sid].last_seen == now
            &&& after.remotes.audio.contains(sid)
            &&& is_video ==> after.remotes.video.contains(sid)
            &&& other != sid && room.registry.contains_key(other) && age(
                now,
                room.registry[other].last_seen,
            ) > REMOTE_PUBLISHER_TTL ==> !after.registry.contains_key(other)
            &&& !room.registry.contains_key(other) && other != sid
                ==> !after.registry.contains_key(other)
        }),
{
    law_room_stays_well_formed(
        room,
        sid,
        0,
        is_video,
        BandwidthEstimate {
            estimated_downlink_kbps: 0,
            estimated_loss_rate: Float32 { bits: 0 },
            rtt_ms: 0,
        },
        now,
    );
}

/// Only a full registry loses a live sender to a new one, and then only the one
/// that was seen longest ago.
pub proof fn law_eviction_takes_the_oldest(
    room: RoomView,
    sid: SessionId,
    is_video: bool,
    now: u64,
    other: SessionId,
)
    requires
        room.wf(),
        live_entries(room.registry, now).contains_key(other),
        !room.after_note(sid, is_video, now).registry.contains_key(other),
    ensures
        live_entries(room.registry, now).dom().len() == MAX_REMOTE_PUBLISHERS,
        is_oldest(live_entries(room.registry, now), other),
        !live_entries(room.registry, now).contains_key(sid),
{
    let live = live_entries(room.registry, now);
    assert(live.dom().subset_of(room.registry.dom()));
    vstd::set_lib::lemma_len_subset(live.dom(), room.registry.dom());
    if live.dom().len() > 0 {
        lemma_oldest_exists(live);
    }
}

/// A write that is skipped as not needed hides nothing: the sender is a member,
/// or it is registered already with the video it shows.
pub proof fn law_skipped_note_hides_nothing(
    room: RoomView,
    sid: SessionId,
    is_video: bool,
    now: u64,
)
    requires
        room.wf(),
        !room.write_needed(sid, is_video, now),
    ensures
        room.members_snapshot.contains(sid) || (room.remotes.audio.contains(sid) && (is_video
            ==> room.remotes.video.contains(sid))),
{
}

/// Skipping writes never costs a sender its place: after a skipped write it stays
/// registered for as long as its next packet comes within the time to live, less the
/// throttle.
pub proof fn law_skipped_note_costs_no_place(
    room: RoomView,
    sid: SessionId,
    is_video: bool,
    now: u64,
    later: u64,
)
    requires
        room.registry.contains_key(sid),
        !room.members.contains_key(sid),
        !room.write_needed(sid, is_video, now),
        now <= later,
        later - now <= REMOTE_PUBLISHER_TTL - REMOTE_PUBLISHER_LIVENESS_THROTTLE,
    ensures
        live_entries(room.registry, later).contains_key(sid),
{
}

/// Each member has an estimate of its downlink exactly if it has the time of one.
pub open spec fn estimates_are_timed(room: RoomView) -> bool {
    forall|s: SessionId| #[trigger]
        room.members.contains_key(s) ==> (room.members[s].bandwidth_estimate is Some
            <==> room.members[s].bandwidth_estimate_updated_at is Some)
}

/// Estimates and their times come and go together, whatever is done to the room.
pub proof fn law_estimates_stay_timed(
    room: RoomView,
    sid: SessionId,
    capabilities: u32,
    is_video: bool,
    est: BandwidthEstimate,
    now: u64,
)
    requires
        estimates_are_timed(room),
    ensures
        estimates_are_timed(room.after_insert(sid, capabilities, now)),
        estimates_are_timed(room.after_remove(sid)),
        estimates_are_timed(room.after_note(sid, is_video, now)),
        estimates_are_timed(room.after_prune(sid)),
        estimates_are_timed(room.after_report(sid, est, now)),
{
}

/// A report is insignificant exactly if there is an earlier one, and the new one is
/// within 50 kbps of it and within a tenth of it.
pub proof fn law_small_changes_are_insignificant(prev: Option<BandwidthEstimate>, new_kbps: u32)
    ensures
        !significant_change(prev, new_kbps) <==> prev is Some && {
            let old_kbps = prev->0.estimated_downlink_kbps;
            &&& old_kbps - 50 <= new_kbps <= old_kbps + 50
            &&& 9 * old_kbps <= 10 * new_kbps <= 11 * old_kbps
        },
{
}

/// A report of a member sets its report time, and its estimate if the change is
/// significant. Nothing else changes, and a report of anyone else changes nothing.
pub proof fn law_report_is_stored(
    room: RoomView,
    sid: SessionId,
    est: BandwidthEstimate,
    now: u64,
    other: SessionId,
)
    requires
        other != sid,
    ensures
        ({
            let after = room.after_report(sid, est, now);
            let before = room.members[sid];
            &&& !room.members.contains_key(sid) ==> after == room
            &&& room.members.contains_key(sid) ==> {
                let m = after.members[sid];
                &&& after.members.contains_key(sid)
                &&& m.bandwidth_estimate_updated_at == Some(now)
                &&& before.bandwidth_estimate is None ==> m.bandwidth_estimate == Some(est)
                &&& significant_change(before.bandwidth_estimate, est.estimated_downlink_kbps)
                    ==> m.bandwidth_estimate == Some(est)
                &&& !significant_change(before.bandwidth_estimate, est.estimated_downlink_kbps)
                    ==> m.bandwidth_estimate == before.bandwidth_estimate
                &&& m.session_id == before.session_id && m.joined_at == before.joined_at
                &&& m.capabilities == before.capabilities && m.is_observer == before.is_observer
                &&& m.is_speaking == before.is_speaking && m.last_speaker_score
                    == before.last_speaker_score
            }
            &&& after.members.contains_key(other) == room.members.contains_key(other)
            &&& room.members.contains_key(other) ==> after.members[other] == room.members[other]
            &&& after.registry == room.registry
            &&& after.remotes == room.remotes
            &&& after.members_snapshot == room.members_snapshot
        }),
{
}

/// Whoever joins is a member from then on, with the capabilities it announced and
/// nothing else known of it, and no longer a remote publisher. Whoever leaves is no
/// member any more. Neither touches anyone else.
pub proof fn law_joining_and_leaving(
    room: RoomView,
    sid: SessionId,
    capabilities: u32,
    now: u64,
    other: SessionId,
)
    requires
        room.wf(),
        other != sid,
    ensures
        ({
            let after = room.after_insert(sid, capabilities, now);
            let m = after.members[sid];
            &&& after.members.contains_key(sid)
            &&& after.members_snapshot.contains(sid)
            &&& m.session_id == sid && m.capabilities == capabilities && m.joined_at == now
            &&& !m.is_observer && !m.is_speaking && m.last_speaker_score.bits == 0
            &&& m.bandwidth_estimate is None && m.bandwidth_estimate_updated_at is None
            &&& !after.registry.contains_key(sid)
            &&& !after.remotes.audio.contains(sid) && !after.remotes.video.contains(sid)
            &&& after.members.contains_key(other) == room.members.contains_key(other)
            &&& room.members.contains_key(other) ==> after.members[other] == room.members[other]
            &&& after.registry.contains_key(other) == room.registry.contains_key(other)
            &&& room.registry.contains_key(other) ==> after.registry[other]
                == room.registry[other]
        }),
        ({
            let after = room.after_remove(sid);
            &&& !after.members.contains_key(sid)
            &&& !after.members_snapshot.contains(sid)
            &&& after.members.contains_key(other) == room.members.contains_key(other)
            &&& room.members.contains_key(other) ==> after.members[other] == room.members[other]
            &&& after.registry == room.registry
        }),
        ({
            let after = room.after_prune(sid);
            &&& !after.registry.contains_key(sid)
            &&& !after.remotes.audio.contains(sid) && !after.remotes.video.contains(sid)
            &&& after.members == room.members
            &&& after.registry.contains_key(other) == room.registry.contains_key(other)
            &&& room.registry.contains_key(other) ==> after.registry[other]
                == room.registry[other]
        }),
{
}

/// Whom subscriptions see of the remote publishers: as heard, everyone that is
/// tracked; as seen, those that have shown video.
pub proof fn law_remotes_are_the_tracked(room: RoomView, s: SessionId)
    requires
        room.wf(),
    ensures
        room.remotes.audio.contains(s) <==> room.registry.contains_key(s),
        room.remotes.video.contains(s) <==> room.registry.contains_key(s)
            && room.registry[s].has_video,
        room.members_snapshot.contains(s) <==> room.members.contains_key(s),
        room.registry.dom().len() <= 32,
{
}

/// The tracked publishers that were noted within the last ten seconds.
pub open spec fn recent_publishers(room: RoomView, now: u64) -> Set<SessionId> {
    Set::new(
        |s: SessionId|
            room.registry.contains_key(s) && now <= room.registry[s].last_seen + 10_000_000_000,
    )
}

/// Noting media in full. Media of members changes nothing. Anyone else is tracked from
/// then on, as seen now, and with video if this is video or it was tracked, within
/// ten seconds, with video. Everyone else that was noted within ten seconds stays as
/// it was, unless the sender is new and there are 32 of them: then the one that was
/// noted first goes, the smallest id of several. No one else is tracked.
pub proof fn law_noting_in_full(
    room: RoomView,
    sid: SessionId,
    is_video: bool,
    now: u64,
    other: SessionId,
)
    requires
        room.wf(),
        other != sid,
    ensures
        ({
            let after = room.after_note(sid, is_video, now);
            let recent = recent_publishers(room, now);
            let crowded = !recent.contains(sid) && recent.len() >= 32;
            let first = recent.contains(other) && forall|t: SessionId|
                #![trigger recent.contains(t)]
                recent.contains(t) ==> room.registry[other].last_seen < room.registry[t].last_seen
                    || (room.registry[other].last_seen == room.registry[t].last_seen && other
                    <= t);
            &&& room.members.contains_key(sid) ==> after == room
            &&& !room.members.contains_key(sid) ==> {
                &&& after.registry.contains_key(sid)
                &&& after.registry[sid].last_seen == now
                &&& after.registry[sid].has_video <==> is_video || recent.contains(sid)
                    && room.registry[sid].has_video
                &&& after.registry.contains_key(other) <==> recent.contains(other) && !(crowded
                    && first)
                &&& after.registry.contains_key(other) ==> after.registry[other]
                    == room.registry[other]
                &&& after.members == room.members
                &&& after.members_snapshot == room.members_snapshot
            }
        }),
{
    let recent = recent_publishers(room, now);
    let live = live_entries(room.registry, now);
    let after = room.after_note(sid, is_video, now);
    assert(live.dom() =~= recent);
    assert(live.dom().subset_of(room.registry.dom()));
    vstd::set_lib::lemma_len_subset(live.dom(), room.registry.dom());
    if !room.members.contains_key(sid) && !live.contains_key(sid) {
        if live.dom().len() >= 32 {
            lemma_oldest_exists(live);
            let o = oldest(live);
            let first = recent.contains(other) && forall|t: SessionId|
                #![trigger recent.contains(t)]
                recent.contains(t) ==> room.registry[other].last_seen < room.registry[t].last_seen
                    || (room.registry[other].last_seen == room.registry[t].last_seen && other
                    <= t);
            if other == o {
                assert forall|t: SessionId| #[trigger] recent.contains(
                    t,
                ) implies room.registry[other].last_seen < room.registry[t].last_seen || (
                room.registry[other].last_seen == room.registry[t].last_seen && other <= t) by {
                    assert(live.contains_key(t));
                }
                assert(recent.contains(other));
                assert(first);
            }
            if first {
                assert(recent.contains(o));
                assert(live.contains_key(other));
                assert(other == o);
            }
        }
    }
}

/// A note holds for a second: until then the sender's media need not be noted again,
/// except its first video; from then on it has to be.
pub proof fn law_note_holds_for_a_second(
    room: RoomView,
    sid: SessionId,
    is_video: bool,
    now: u64,
    shows: bool,
    later: u64,
)
    requires
        room.wf(),
        now <= later,
    ensures
        room.members.contains_key(sid) ==> !room.write_needed(sid, shows, later),
        !room.members.contains_key(sid) && !room.registry.contains_key(sid) ==> room.write_needed(
            sid,
            shows,
            later,
        ),
        !room.members.contains_key(sid) ==> ({
            let after = room.after_note(sid, is_video, now);
            after.write_needed(sid, shows, later) <==> later >= now + 1_000_000_000 || shows
                && !after.remotes.video.contains(sid)
        }),
{
    law_noting_in_full(
        room,
        sid,
        is_video,
        now,
        if sid == 0 {
            1
        } else {
            0
        },
    );
    law_room_stays_well_formed(
        room,
        sid,
        0,
        is_video,
        BandwidthEstimate {
            estimated_downlink_kbps: 0,
            estimated_loss_rate: Float32 { bits: 0 },
            rtt_ms: 0,
        },
        now,
    );
}

/// There are senders exactly if some member is no observer.
proof fn lemma_sending_members(members: Map<SessionId, MemberEntry>)
    requires
        members.dom().finite(),
    ensures
        sending_members(members).len() > 0 <==> exists|s: SessionId|
            #[trigger] members.contains_key(s) && !members[s].is_observer,
{
    let sends = |t: SessionId| !members[t].is_observer;
    let set = members.dom().filter(sends);
    members.dom().lemma_len_filter(sends);
    crate::ids::lemma_ascending_exists(set);
    let ids = crate::ids::ascending(set);
    assert(sending_members(members) =~= ids.map_values(|t: SessionId| members[t]));
    if ids.len() > 0 {
        assert(ids.to_set().contains(ids[0]));
        assert(members.contains_key(ids[0]) && !members[ids[0]].is_observer);
    }
    if exists|s: SessionId| #[trigger] members.contains_key(s) && !members[s].is_observer {
        let s = choose|s: SessionId| #[trigger] members.contains_key(s) && !members[s].is_observer;
        assert(set.contains(s));
        assert(ids.to_set().contains(s));
    }
}

/// The senders are the members that are no observers, each listed once, by ascending
/// id where members stand under their own.
pub proof fn law_senders_are_all_but_observers(
    members: Map<SessionId, MemberEntry>,
    s: SessionId,
    i: int,
    j: int,
)
    requires
        members.dom().finite(),
        forall|t: SessionId| #[trigger] members.contains_key(t) ==> members[t].session_id == t,
    ensures
        ({
            let list = sending_members(members);
            &&& (exists|k: int| 0 <= k < list.len() && (#[trigger] list[k]).session_id == s)
                <==> members.contains_key(s) && !members[s].is_observer
            &&& 0 <= i < list.len() ==> list[i] == members[list[i].session_id]
            &&& 0 <= i < j < list.len() ==> list[i].session_id < list[j].session_id
        }),
{
    let sends = |t: SessionId| !members[t].is_observer;
    let set = members.dom().filter(sends);
    members.dom().lemma_len_filter(sends);
    crate::ids::lemma_ascending_exists(set);
    let ids = crate::ids::ascending(set);
    let list = sending_members(members);
    assert(list =~= ids.map_values(|t: SessionId| members[t]));
    assert forall|k: int| 0 <= k < ids.len() implies set.contains(#[trigger] ids[k]) by {
        assert(ids.to_set().contains(ids[k]));
    }
    assert forall|k: int| 0 <= k < list.len() implies (#[trigger] list[k]).session_id
        == ids[k] by {
        assert(set.contains(ids[k]));
        assert(members.contains_key(ids[k]));
    }
    if members.contains_key(s) && !members[s].is_observer {
        assert(set.contains(s));
        assert(ids.to_set().contains(s));
        let k = choose|k: int| 0 <= k < ids.len() && ids[k] == s;
        assert(list[k].session_id == s);
    }
    if exists|k: int| 0 <= k < list.len() && (#[trigger] list[k]).session_id == s {
        let k = choose|k: int| 0 <= k < list.len() && (#[trigger] list[k]).session_id == s;
        assert(ids[k] == s);
        assert(set.contains(ids[k]));
    }
    if 0 <= i < list.len() {
        assert(list[i].session_id == ids[i]);
    }
    if 0 <= i < j < list.len() {
        assert(list[i].session_id == ids[i] && list[j].session_id == ids[j]);
    }
}

/// A member has capabilities together exactly if it has each of them, and it has all of
/// those that it joined with. Only members are said to have any.
pub proof fn law_capabilities_add_up(
    room: RoomView,
    sid: SessionId,
    a: u32,
    b: u32,
    now: u64,
)
    ensures
        has_capabilities(room.members, sid, a | b) <==> has_capabilities(room.members, sid, a)
            && has_capabilities(room.members, sid, b),
        has_capabilities(room.after_insert(sid, a | b, now).members, sid, a),
        room.members.contains_key(sid) <==> has_capabilities(room.members, sid, 0),
{
    let c = room.members[sid].capabilities;
    assert((c & (a | b) == a | b) <==> (c & a == a && c & b == b)) by (bit_vector);
    assert((a | b) & a == a) by (bit_vector);
    assert(c & 0 == 0) by (bit_vector);
}

} // verus!
