//! Per-receiver subscriptions and the allow sets they resolve to.
//!
//! A receiver declares which senders it wants (pins, layout slots, receive-all
//! flags). The store keeps the latest declaration and resolves it against the
//! room's members, the active speakers and the remote publishers into an
//! [`AllowSet`]. Resolved sets are cached under the generations of their inputs.
use std::collections::{HashMap, HashSet};
use std::sync::Arc;

use dashmap::DashMap;

use crate::ids::{contains_id, insert_sorted, sorted_ids, SessionId};
use crate::packet::{SubscriptionUpdate, VisibilitySlot};
use crate::room_state::RemotePublishers;

use vstd::prelude::*;

verus! {

broadcast use vstd::std_specs::hash::group_hash_axioms;

/// Maximum number of senders whose video an explicit subscription admits.
pub const MAX_VISIBLE_VIDEO: u32 = 6;

/// Maximum number of pinned ids kept per receiver while their senders are absent.
pub const PENDING_CAP: usize = 50;

/// Preferred layers of one forwarded video stream. `(0, 0)` is the base layer.
#[derive(Debug, Clone, Copy, PartialEq, Eq, Structural)]
pub struct LayerPref {
    pub preferred_spatial: u32,
    pub preferred_temporal: u32,
}

/// The base-layer preference.
pub open spec fn base_pref() -> LayerPref {
    LayerPref { preferred_spatial: 0, preferred_temporal: 0 }
}

impl Default for LayerPref {
    fn default() -> (r: Self)
        ensures
            r == base_pref(),
    {
        LayerPref { preferred_spatial: 0, preferred_temporal: 0 }
    }
}

/// The senders whose audio and video may be forwarded to one receiver.
#[derive(Debug)]
pub struct AllowSet {
    pub audio: HashSet<SessionId>,
    pub video: HashMap<SessionId, LayerPref>,
}

/// Mathematical view of an [`AllowSet`].
#[verifier::ext_equal]
pub struct AllowView {
    pub audio: Set<SessionId>,
    pub video: Map<SessionId, LayerPref>,
}

impl View for AllowSet {
    type V = AllowView;

    open spec fn view(&self) -> AllowView {
        AllowView { audio: self.audio@, video: self.video@ }
    }
}

impl AllowSet {
    /// An allow set that admits nobody.
    pub fn new() -> (r: Self)
        ensures
            r@ == (AllowView { audio: Set::empty(), video: Map::empty() }),
    {
        AllowSet { audio: HashSet::new(), video: HashMap::new() }
    }
}

impl Default for AllowSet {
    fn default() -> (r: Self)
        ensures
            r@ == (AllowView { audio: Set::empty(), video: Map::empty() }),
    {
        AllowSet::new()
    }
}

/// The latest declaration of one receiver, with senders that were absent when
/// it was applied already removed.
#[derive(Debug)]
pub struct ReceiverSubscription {
    pub pinned: HashSet<SessionId>,
    pub slots: Vec<VisibilitySlot>,
    pub max_video_kbps: u32,
    pub receive_all_audio: bool,
    pub receive_all_video: bool,
}

/// Mathematical view of a [`ReceiverSubscription`].
#[verifier::ext_equal]
pub struct SubView {
    pub pinned: Set<SessionId>,
    pub slots: Seq<VisibilitySlot>,
    pub max_video_kbps: u32,
    pub receive_all_audio: bool,
    pub receive_all_video: bool,
}

impl View for ReceiverSubscription {
    type V = SubView;

    open spec fn view(&self) -> SubView {
        SubView {
            pinned: self.pinned@,
            slots: self.slots@,
            max_video_kbps: self.max_video_kbps,
            receive_all_audio: self.receive_all_audio,
            receive_all_video: self.receive_all_video,
        }
    }
}

/// What a subscription is resolved against: the room's members, the active
/// speakers and the remote publishers.
#[verifier::ext_equal]
pub struct RoomInputs {
    pub members: Set<SessionId>,
    pub speakers: Seq<SessionId>,
    pub remote: crate::room_state::RemoteView,
}

/// The elements of `ids` other than `receiver` that are members (`local`) or
/// are not (`!local`).
pub open spec fn others(
    ids: Set<SessionId>,
    receiver: SessionId,
    members: Set<SessionId>,
    local: bool,
) -> Set<SessionId> {
    ids.filter(|s: SessionId| s != receiver && members.contains(s) == local)
}

/// `c` followed by the elements of `tier` that it does not hold yet, ascending.
pub open spec fn extend_tier(c: Seq<SessionId>, tier: Set<SessionId>) -> Seq<SessionId> {
    c + crate::ids::ascending(tier.difference(c.to_set()))
}

/// The senders that an explicit subscription asks video of, most wanted first:
/// pins, then layout slots, then speakers, and for a receive-all receiver the
/// remote video publishers and then every member. Each tier is ascending and
/// leaves out whom an earlier tier named.
pub open spec fn video_candidates(
    sub: SubView,
    receiver: SessionId,
    room: RoomInputs,
) -> Seq<SessionId> {
    let slot_ids = sub.slots.map_values(|s: VisibilitySlot| s.session_id).to_set();
    let pins = extend_tier(Seq::empty(), others(sub.pinned, receiver, room.members, true));
    let slots = extend_tier(pins, others(slot_ids, receiver, room.members, true));
    let speakers = extend_tier(
        slots,
        others(room.speakers.to_set(), receiver, room.members, true),
    );
    if sub.receive_all_video {
        let remotes = extend_tier(
            speakers,
            others(room.remote.video, receiver, room.members, false),
        );
        extend_tier(remotes, others(room.members, receiver, room.members, true))
    } else {
        speakers
    }
}

/// The first [`MAX_VISIBLE_VIDEO`] elements of `c`.
pub open spec fn visible(c: Seq<SessionId>) -> Seq<SessionId> {
    if c.len() <= MAX_VISIBLE_VIDEO {
        c
    } else {
        c.take(MAX_VISIBLE_VIDEO as int)
    }
}

/// The layers that the first slot naming `sid` asks for, or the base layer.
pub open spec fn slot_pref(slots: Seq<VisibilitySlot>, sid: SessionId) -> LayerPref
    decreases slots.len(),
{
    if slots.len() == 0 {
        base_pref()
    } else if slots[0].session_id == sid {
        LayerPref {
            preferred_spatial: slots[0].preferred_spatial,
            preferred_temporal: slots[0].preferred_temporal,
        }
    } else {
        slot_pref(slots.drop_first(), sid)
    }
}

/// The preference under which `sid` is admitted: slots speak for members only.
pub open spec fn video_pref(
    slots: Seq<VisibilitySlot>,
    members: Set<SessionId>,
    sid: SessionId,
) -> LayerPref {
    if members.contains(sid) {
        slot_pref(slots, sid)
    } else {
        base_pref()
    }
}

/// Everyone in the room and every remote publisher, except the receiver.
pub open spec fn everyone_else(receiver: SessionId, room: RoomInputs) -> Set<SessionId> {
    room.members.union(room.remote.audio).union(room.remote.video).remove(receiver)
}

/// The allow set of a receiver that never declared a subscription: everyone
/// else, at the base layer.
pub open spec fn default_allow(receiver: SessionId, room: RoomInputs) -> AllowView {
    AllowView {
        audio: everyone_else(receiver, room),
        video: Map::new(
            |s: SessionId| room.members.union(room.remote.video).remove(receiver).contains(s),
            |s: SessionId| base_pref(),
        ),
    }
}

/// The allow set that an explicit subscription resolves to.
pub open spec fn explicit_allow(sub: SubView, receiver: SessionId, room: RoomInputs) -> AllowView {
    let ids = visible(video_candidates(sub, receiver, room));
    let video = Map::new(
        |s: SessionId| ids.contains(s),
        |s: SessionId| video_pref(sub.slots, room.members, s),
    );
    AllowView {
        audio: if sub.receive_all_audio {
            everyone_else(receiver, room)
        } else {
            video.dom()
        },
        video,
    }
}

/// The allow set of `receiver`, given its declaration if it made one.
pub open spec fn resolved(
    sub: Option<SubView>,
    receiver: SessionId,
    room: RoomInputs,
) -> AllowView {
    match sub {
        None => default_allow(receiver, room),
        Some(s) => explicit_allow(s, receiver, room),
    }
}

/// A resolved allow set with the generations of the inputs it was made from.
#[derive(Debug)]
pub struct CachedAllow {
    pub allow: Arc<AllowSet>,
    pub sub_version: u64,
    pub members_generation: u64,
    pub speakers_generation: u64,
}

/// Mathematical view of a [`CachedAllow`].
#[verifier::ext_equal]
pub struct CachedView {
    pub allow: AllowView,
    pub sub_version: u64,
    pub members_generation: u64,
    pub speakers_generation: u64,
}

impl View for CachedAllow {
    type V = CachedView;

    open spec fn view(&self) -> CachedView {
        CachedView {
            allow: self.allow@,
            sub_version: self.sub_version,
            members_generation: self.members_generation,
            speakers_generation: self.speakers_generation,
        }
    }
}

/// What the allow-set cache holds, by receiver.
pub uninterp spec fn cache_contents(cache: DashMap<u64, CachedAllow>) -> Map<u64, CachedAllow>;

/// `DashMap::new`: the new map is empty.
#[verifier::external_body]
fn cache_new() -> (cache: DashMap<u64, CachedAllow>)
    ensures
        cache_contents(cache).dom() == Set::<u64>::empty(),
{
    DashMap::new()
}

/// `DashMap::get`: the entry under `key`, if the map holds one. The entry is
/// copied out field by field (the allow set by its shared handle), so no lock
/// on the map outlives the call.
#[verifier::external_body]
fn cache_get(cache: &DashMap<u64, CachedAllow>, key: u64) -> (entry: Option<CachedAllow>)
    ensures
        match entry {
            Some(e) => cache_contents(*cache).contains_key(key) && e == cache_contents(
                *cache,
            )[key],
            None => !cache_contents(*cache).contains_key(key),
        },
{
    match cache.get(&key) {
        Some(e) => Some(
            CachedAllow {
                allow: Arc::clone(&e.allow),
                sub_version: e.sub_version,
                members_generation: e.members_generation,
                speakers_generation: e.speakers_generation,
            },
        ),
        None => None,
    }
}

/// `DashMap::insert`: afterwards `key` maps to `entry`, whatever it mapped to
/// before, and every other key is as it was.
#[verifier::external_body]
fn cache_insert(cache: &mut DashMap<u64, CachedAllow>, key: u64, entry: CachedAllow)
    ensures
        cache_contents(*final(cache)) == cache_contents(*old(cache)).insert(key, entry),
{
    cache.insert(key, entry);
}

/// `DashMap::remove`: afterwards `key` is absent and every other key is as it was.
#[verifier::external_body]
fn cache_remove(cache: &mut DashMap<u64, CachedAllow>, key: u64)
    ensures
        cache_contents(*final(cache)) == cache_contents(*old(cache)).remove(key),
{
    cache.remove(&key);
}

/// `DashMap::iter`, reduced to the keys: each key of the map once, in no
/// particular order.
#[verifier::external_body]
fn cache_keys(cache: &DashMap<u64, CachedAllow>) -> (keys: Vec<u64>)
    ensures
        keys@.no_duplicates(),
        keys@.to_set() == cache_contents(*cache).dom(),
{
    cache.iter().map(|e| *e.key()).collect()
}

/// The ids that `others` keeps of `ids`, ascending.
fn sorted_others(
    ids: &[SessionId],
    receiver: SessionId,
    members: &HashSet<SessionId>,
    local: bool,
) -> (r: Vec<SessionId>)
    ensures
        crate::ids::lists_ascending(r@, others(ids@.to_set(), receiver, members@, local)),
        r@ == crate::ids::ascending(others(ids@.to_set(), receiver, members@, local)),
{
    let mut r: Vec<SessionId> = Vec::new();
    let ghost keep = |s: SessionId| s != receiver && members@.contains(s) == local;
    proof {
        assert(r@.to_set() =~= ids@.take(0).to_set().filter(keep));
    }
    let mut i: usize = 0;
    while i < ids.len()
        invariant
            i <= ids@.len(),
            keep == (|s: SessionId| s != receiver && members@.contains(s) == local),
            crate::ids::lists_ascending(r@, ids@.take(i as int).to_set().filter(keep)),
        decreases ids@.len() - i,
    {
        let sid: SessionId = ids[i];
        proof {
            crate::ids::lemma_prefix_set(ids@, i as int);
        }
        if sid != receiver && members.contains(&sid) == local {
            insert_sorted(&mut r, sid);
        }
        proof {
            let next = ids@.take(i + 1).to_set().filter(keep);
            let prev = ids@.take(i as int).to_set().filter(keep);
            if keep(sid) {
                assert(next =~= prev.insert(sid));
            } else {
                assert(next =~= prev);
            }
        }
        i = i + 1;
    }
    proof {
        assert(ids@.take(ids@.len() as int) =~= ids@);
        assert(ids@.to_set().filter(keep) =~= others(ids@.to_set(), receiver, members@, local));
        crate::ids::lemma_is_ascending(r@, others(ids@.to_set(), receiver, members@, local));
    }
    r
}

/// Appends a tier to the visible candidates, as far as the cap leaves room.
/// `named` is the uncapped candidate list so far.
fn push_tier(out: &mut Vec<SessionId>, tier: &Vec<SessionId>, Ghost(named): Ghost<Seq<SessionId>>)
    requires
        old(out)@ == visible(named),
        crate::ids::lists_ascending(tier@, tier@.to_set()),
    ensures
        final(out)@ == visible(extend_tier(named, tier@.to_set())),
{
    let ghost fresh = |s: SessionId| !named.contains(s);
    proof {
        reveal(Seq::filter);
        assert(named + tier@.take(0).filter(fresh) =~= named);
    }
    let mut i: usize = 0;
    while i < tier.len()
        invariant
            i <= tier@.len(),
            fresh == (|s: SessionId| !named.contains(s)),
            crate::ids::lists_ascending(tier@, tier@.to_set()),
            out@ == visible(named + tier@.take(i as int).filter(fresh)),
        decreases tier@.len() - i,
    {
        let sid: SessionId = tier[i];
        let ghost acc = named + tier@.take(i as int).filter(fresh);
        let ghost next = named + tier@.take(i + 1).filter(fresh);
        proof {
            reveal(Seq::filter);
            assert(tier@.take(i + 1).drop_last() =~= tier@.take(i as int));
            if fresh(sid) {
                assert(next =~= acc.push(sid));
            } else {
                assert(next =~= acc);
            }
        }
        if out.len() < MAX_VISIBLE_VIDEO as usize {
            let seen: bool = contains_id(out, sid);
            proof {
                let kept = tier@.take(i as int).filter(fresh);
                assert(!kept.contains(sid)) by {
                    if kept.contains(sid) {
                        tier@.take(i as int).lemma_filter_contains_rev(fresh, sid);
                        let k = choose|k: int| 0 <= k < i && tier@.take(i as int)[k] == sid;
                        assert(tier@[k] < tier@[i as int]);
                    }
                }
                assert(acc.contains(sid) == named.contains(sid)) by {
                    if acc.contains(sid) {
                        let k = choose|k: int| 0 <= k < acc.len() && acc[k] == sid;
                        if k >= named.len() {
                            assert(kept[k - named.len()] == sid);
                        } else {
                            assert(named[k] == sid);
                        }
                    }
                    if named.contains(sid) {
                        let k = choose|k: int| 0 <= k < named.len() && named[k] == sid;
                        assert(acc[k] == sid);
                    }
                }
            }
            if !seen {
                out.push(sid);
            }
            assert(out@ =~= visible(next));
        } else {
            assert(visible(next) =~= visible(acc));
        }
        i = i + 1;
    }
    proof {
        assert(tier@.take(tier@.len() as int) =~= tier@);
        crate::ids::lemma_filter_ascending(tier@, tier@.to_set(), fresh);
        assert(tier@.to_set().filter(fresh) =~= tier@.to_set().difference(named.to_set()));
        crate::ids::lemma_is_ascending(
            tier@.filter(fresh),
            tier@.to_set().difference(named.to_set()),
        );
    }
}

/// The session ids that `slots` name, in order.
fn slot_ids(slots: &Vec<VisibilitySlot>) -> (r: Vec<SessionId>)
    ensures
        r@ == slots@.map_values(|s: VisibilitySlot| s.session_id),
{
    let mut r: Vec<SessionId> = Vec::new();
    let mut i: usize = 0;
    while i < slots.len()
        invariant
            i <= slots@.len(),
            r@ == slots@.take(i as int).map_values(|s: VisibilitySlot| s.session_id),
        decreases slots@.len() - i,
    {
        r.push(slots[i].session_id);
        proof {
            assert(r@ =~= slots@.take(i + 1).map_values(|s: VisibilitySlot| s.session_id));
        }
        i = i + 1;
    }
    proof {
        assert(slots@.take(slots@.len() as int) =~= slots@);
    }
    r
}

/// The layers that the first slot naming `sid` asks for, or the base layer.
fn find_slot_pref(slots: &Vec<VisibilitySlot>, sid: SessionId) -> (r: LayerPref)
    ensures
        r == slot_pref(slots@, sid),
{
    let mut i: usize = 0;
    proof {
        assert(slots@.skip(0) =~= slots@);
    }
    while i < slots.len()
        invariant
            i <= slots@.len(),
            slot_pref(slots@, sid) == slot_pref(slots@.skip(i as int), sid),
        decreases slots@.len() - i,
    {
        proof {
            assert(slots@.skip(i as int)[0] == slots@[i as int]);
            assert(slots@.skip(i as int).drop_first() =~= slots@.skip(i + 1));
        }
        if slots[i].session_id == sid {
            return LayerPref {
                preferred_spatial: slots[i].preferred_spatial,
                preferred_temporal: slots[i].preferred_temporal,
            };
        }
        i = i + 1;
    }
    LayerPref::default()
}

/// Adds to `set` every id of `ids` but `skip`.
fn insert_all_but(set: &mut HashSet<SessionId>, ids: &HashSet<SessionId>, skip: SessionId)
    ensures
        final(set)@ == old(set)@.union(ids@.remove(skip)),
{
    let list: Vec<SessionId> = sorted_ids(ids);
    let ghost before = set@;
    proof {
        assert(before.union(list@.take(0).to_set().remove(skip)) =~= before);
    }
    let mut i: usize = 0;
    while i < list.len()
        invariant
            i <= list@.len(),
            set@ == before.union(list@.take(i as int).to_set().remove(skip)),
        decreases list@.len() - i,
    {
        let sid: SessionId = list[i];
        proof {
            crate::ids::lemma_prefix_set(list@, i as int);
        }
        if sid != skip {
            set.insert(sid);
        }
        proof {
            assert(set@ =~= before.union(list@.take(i + 1).to_set().remove(skip)));
        }
        i = i + 1;
    }
    proof {
        assert(list@.take(list@.len() as int) =~= list@);
    }
}

/// Everyone in the room and every remote publisher, except the receiver.
fn collect_everyone_else(
    receiver: SessionId,
    members: &HashSet<SessionId>,
    remote: &RemotePublishers,
) -> (audio: HashSet<SessionId>)
    ensures
        audio@ == members@.union(remote@.audio).union(remote@.video).remove(receiver),
{
    let mut audio: HashSet<SessionId> = HashSet::new();
    insert_all_but(&mut audio, members, receiver);
    insert_all_but(&mut audio, &remote.audio, receiver);
    insert_all_but(&mut audio, &remote.video, receiver);
    proof {
        assert(audio@ =~= members@.union(remote@.audio).union(remote@.video).remove(receiver));
    }
    audio
}

/// Admits every id of `ids` but `skip` to `video`, at the base layer.
fn admit_all_but(
    video: &mut HashMap<SessionId, LayerPref>,
    ids: &HashSet<SessionId>,
    skip: SessionId,
)
    requires
        forall|s: SessionId| old(video)@.contains_key(s) ==> old(video)@[s] == base_pref(),
    ensures
        final(video)@.dom() == old(video)@.dom().union(ids@.remove(skip)),
        forall|s: SessionId| final(video)@.contains_key(s) ==> final(video)@[s] == base_pref(),
{
    let list: Vec<SessionId> = sorted_ids(ids);
    let ghost before = video@.dom();
    proof {
        assert(before.union(list@.take(0).to_set().remove(skip)) =~= before);
    }
    let mut i: usize = 0;
    while i < list.len()
        invariant
            i <= list@.len(),
            video@.dom() == before.union(list@.take(i as int).to_set().remove(skip)),
            forall|s: SessionId| video@.contains_key(s) ==> video@[s] == base_pref(),
        decreases list@.len() - i,
    {
        let sid: SessionId = list[i];
        proof {
            crate::ids::lemma_prefix_set(list@, i as int);
        }
        if sid != skip {
            video.insert(sid, LayerPref::default());
        }
        proof {
            assert(video@.dom() =~= before.union(list@.take(i + 1).to_set().remove(skip)));
        }
        i = i + 1;
    }
    proof {
        assert(list@.take(list@.len() as int) =~= list@);
    }
}

/// The subscriptions of one room's receivers.
pub struct SubscriptionStore {
    /// Latest declaration of each receiver that made one.
    pub per_receiver: HashMap<SessionId, ReceiverSubscription>,
    /// Pinned ids whose senders were absent, oldest first.
    pub pending: HashMap<SessionId, Vec<SessionId>>,
    /// Number of declarations of each receiver, modulo 2^64.
    pub sub_version: HashMap<SessionId, u64>,
    /// Resolved allow sets by receiver.
    pub cache: DashMap<u64, CachedAllow>,
}

/// Mathematical view of a [`SubscriptionStore`].
#[verifier::ext_equal]
pub struct StoreView {
    pub subs: Map<SessionId, SubView>,
    pub pending: Map<SessionId, Seq<SessionId>>,
    pub versions: Map<SessionId, u64>,
    pub cache: Map<SessionId, CachedView>,
}

impl View for SubscriptionStore {
    type V = StoreView;

    open spec fn view(&self) -> StoreView {
        StoreView {
            subs: self.per_receiver@.map_values(|s: ReceiverSubscription| s@),
            pending: self.pending@.map_values(|p: Vec<SessionId>| p@),
            versions: self.sub_version@,
            cache: cache_contents(self.cache).map_values(|c: CachedAllow| c@),
        }
    }
}

impl StoreView {
    /// The declaration of `receiver`, if it made one.
    pub open spec fn sub(self, receiver: SessionId) -> Option<SubView> {
        if self.subs.contains_key(receiver) {
            Some(self.subs[receiver])
        } else {
            None
        }
    }

    /// Whether `receiver` wants the audio, and the video, of everyone.
    pub open spec fn mode(self, receiver: SessionId) -> (bool, bool) {
        match self.sub(receiver) {
            None => (true, true),
            Some(sub) => (sub.receive_all_audio, sub.receive_all_video),
        }
    }

    /// The pending pins of `receiver`, oldest first.
    pub open spec fn pending_of(self, receiver: SessionId) -> Seq<SessionId> {
        if self.pending.contains_key(receiver) {
            self.pending[receiver]
        } else {
            Seq::empty()
        }
    }

    /// How often `receiver` declared, modulo 2^64.
    pub open spec fn version(self, receiver: SessionId) -> u64 {
        if self.versions.contains_key(receiver) {
            self.versions[receiver]
        } else {
            0
        }
    }

    /// The cache entry that answers `receiver`: the one it has, where all three
    /// generations match, and a fresh one otherwise.
    pub open spec fn answer(
        self,
        receiver: SessionId,
        room: RoomInputs,
        members_generation: u64,
        speakers_generation: u64,
    ) -> CachedView {
        if self.cache.contains_key(receiver) && self.cache[receiver].sub_version == self.version(
            receiver,
        ) && self.cache[receiver].members_generation == members_generation
            && self.cache[receiver].speakers_generation == speakers_generation {
            self.cache[receiver]
        } else {
            CachedView {
                allow: resolved(self.sub(receiver), receiver, room),
                sub_version: self.version(receiver),
                members_generation,
                speakers_generation,
            }
        }
    }

    /// The store after `receiver` was answered.
    pub open spec fn after_resolve(
        self,
        receiver: SessionId,
        room: RoomInputs,
        members_generation: u64,
        speakers_generation: u64,
    ) -> StoreView {
        StoreView {
            cache: self.cache.insert(
                receiver,
                self.answer(receiver, room, members_generation, speakers_generation),
            ),
            ..self
        }
    }

    /// The store after every cached receiver was answered.
    pub open spec fn after_rewarm(
        self,
        room: RoomInputs,
        members_generation: u64,
        speakers_generation: u64,
    ) -> StoreView {
        StoreView {
            cache: Map::new(
                |r: SessionId| self.cache.contains_key(r),
                |r: SessionId| self.answer(r, room, members_generation, speakers_generation),
            ),
            ..self
        }
    }

    /// The store after `receiver` was forgotten.
    pub open spec fn after_forget(self, receiver: SessionId) -> StoreView {
        StoreView {
            subs: self.subs.remove(receiver),
            pending: self.pending.remove(receiver),
            versions: self.versions.remove(receiver),
            cache: self.cache.remove(receiver),
        }
    }

    /// The store after `receiver` declared `update` while `members` were present.
    pub open spec fn after_update(
        self,
        receiver: SessionId,
        update: SubscriptionUpdate,
        members: Set<SessionId>,
    ) -> StoreView {
        let waiting = next_pending(self.pending_of(receiver), update.pinned_sessions@, members);
        StoreView {
            subs: self.subs.insert(receiver, declared(self.pending_of(receiver), update, members)),
            pending: if waiting.len() == 0 {
                self.pending.remove(receiver)
            } else {
                self.pending.insert(receiver, waiting)
            },
            versions: self.versions.insert(receiver, self.version(receiver).wrapping_add(1)),
            cache: self.cache.remove(receiver),
        }
    }
}

/// The last [`PENDING_CAP`] elements of `s`.
pub open spec fn newest(s: Seq<SessionId>) -> Seq<SessionId> {
    if s.len() <= PENDING_CAP {
        s
    } else {
        s.skip(s.len() - PENDING_CAP)
    }
}

/// The pins that still wait for their sender: what waited before, then what the
/// update adds, without those present, and of these the newest.
pub open spec fn next_pending(
    pending: Seq<SessionId>,
    pinned: Seq<SessionId>,
    members: Set<SessionId>,
) -> Seq<SessionId> {
    let absent = |s: SessionId| !members.contains(s);
    newest(pending.filter(absent) + pinned.filter(absent))
}

/// The declaration that `update` leaves, with the pins that waited in `pending`
/// and are present now.
pub open spec fn declared(
    pending: Seq<SessionId>,
    update: SubscriptionUpdate,
    members: Set<SessionId>,
) -> SubView {
    SubView {
        pinned: update.pinned_sessions@.to_set().union(pending.to_set()).intersect(members),
        slots: update.slots@.filter(|s: VisibilitySlot| members.contains(s.session_id)),
        max_video_kbps: update.max_video_kbps,
        receive_all_audio: update.receive_all_audio,
        receive_all_video: update.receive_all_video,
    }
}

/// The inputs that a resolution is made from.
pub open spec fn room_inputs(
    members: Set<SessionId>,
    speakers: Seq<SessionId>,
    remote: crate::room_state::RemoteView,
) -> RoomInputs {
    RoomInputs { members, speakers, remote }
}

impl SubscriptionStore {
    /// A store without receivers.
    pub fn new() -> (r: Self)
        ensures
            r@ == (StoreView {
                subs: Map::empty(),
                pending: Map::empty(),
                versions: Map::empty(),
                cache: Map::empty(),
            }),
    {
        let r = SubscriptionStore {
            per_receiver: HashMap::new(),
            pending: HashMap::new(),
            sub_version: HashMap::new(),
            cache: cache_new(),
        };
        proof {
            assert(r@.subs =~= Map::empty());
            assert(r@.pending =~= Map::empty());
            assert(r@.cache =~= Map::empty());
        }
        r
    }

    /// The version of `receiver`'s declaration.
    fn version_of(&self, receiver: SessionId) -> (v: u64)
        ensures
            v == self@.version(receiver),
    {
        match self.sub_version.get(&receiver) {
            Some(v) => *v,
            None => 0,
        }
    }

    /// Resolves `receiver`'s subscription against the room, without remote
    /// publishers.
    pub fn resolve(
        &self,
        receiver: SessionId,
        current_members: &HashSet<SessionId>,
        speaker_set: &[SessionId],
    ) -> (allow: AllowSet)
        ensures
            allow@ == resolved(
                self@.sub(receiver),
                receiver,
                room_inputs(current_members@, speaker_set@, crate::room_state::no_remotes()),
            ),
    {
        self.resolve_inner(receiver, current_members, speaker_set, &RemotePublishers::new())
    }

    /// Resolves `receiver`'s subscription against the room.
    pub fn resolve_inner(
        &self,
        receiver: SessionId,
        current_members: &HashSet<SessionId>,
        speaker_set: &[SessionId],
        remote_publishers: &RemotePublishers,
    ) -> (allow: AllowSet)
        ensures
            allow@ == resolved(
                self@.sub(receiver),
                receiver,
                room_inputs(current_members@, speaker_set@, remote_publishers@),
            ),
    {
        match self.per_receiver.get(&receiver) {
            None => resolve_default(receiver, current_members, speaker_set, remote_publishers),
            Some(sub) => resolve_explicit(
                sub,
                receiver,
                current_members,
                speaker_set,
                remote_publishers,
            ),
        }
    }
}

/// Appends to `waiting` the ids of `ids` whose sender is absent, in order.
fn append_absent(waiting: &mut Vec<SessionId>, ids: &Vec<SessionId>, members: &HashSet<SessionId>)
    ensures
        final(waiting)@ == old(waiting)@ + ids@.filter(|s: SessionId| !members@.contains(s)),
{
    let ghost before = waiting@;
    let ghost absent = |s: SessionId| !members@.contains(s);
    proof {
        reveal(Seq::filter);
        assert(before + ids@.take(0).filter(absent) =~= before);
    }
    let mut i: usize = 0;
    while i < ids.len()
        invariant
            i <= ids@.len(),
            absent == (|s: SessionId| !members@.contains(s)),
            waiting@ == before + ids@.take(i as int).filter(absent),
        decreases ids@.len() - i,
    {
        let sid: SessionId = ids[i];
        if !members.contains(&sid) {
            waiting.push(sid);
        }
        proof {
            reveal(Seq::filter);
            assert(ids@.take(i + 1).drop_last() =~= ids@.take(i as int));
            assert(waiting@ =~= before + ids@.take(i + 1).filter(absent));
        }
        i = i + 1;
    }
    proof {
        assert(ids@.take(ids@.len() as int) =~= ids@);
    }
}

/// Adds to `pinned` the ids of `ids` whose sender is present.
fn insert_present(
    pinned: &mut HashSet<SessionId>,
    ids: &Vec<SessionId>,
    members: &HashSet<SessionId>,
)
    ensures
        final(pinned)@ == old(pinned)@.union(ids@.to_set().intersect(members@)),
{
    let ghost before = pinned@;
    proof {
        assert(before.union(ids@.take(0).to_set().intersect(members@)) =~= before);
    }
    let mut i: usize = 0;
    while i < ids.len()
        invariant
            i <= ids@.len(),
            pinned@ == before.union(ids@.take(i as int).to_set().intersect(members@)),
        decreases ids@.len() - i,
    {
        let sid: SessionId = ids[i];
        if members.contains(&sid) {
            pinned.insert(sid);
        }
        proof {
            crate::ids::lemma_prefix_set(ids@, i as int);
            assert(pinned@ =~= before.union(ids@.take(i + 1).to_set().intersect(members@)));
        }
        i = i + 1;
    }
    proof {
        assert(ids@.take(ids@.len() as int) =~= ids@);
    }
}

/// The slots whose sender is present, in order.
fn present_slots(slots: &Vec<VisibilitySlot>, members: &HashSet<SessionId>) -> (r: Vec<
    VisibilitySlot,
>)
    ensures
        r@ == slots@.filter(|s: VisibilitySlot| members@.contains(s.session_id)),
{
    let mut r: Vec<VisibilitySlot> = Vec::new();
    let ghost present = |s: VisibilitySlot| members@.contains(s.session_id);
    proof {
        reveal(Seq::filter);
        assert(r@ =~= slots@.take(0).filter(present));
    }
    let mut i: usize = 0;
    while i < slots.len()
        invariant
            i <= slots@.len(),
            present == (|s: VisibilitySlot| members@.contains(s.session_id)),
            r@ == slots@.take(i as int).filter(present),
        decreases slots@.len() - i,
    {
        let slot: VisibilitySlot = slots[i];
        if members.contains(&slot.session_id) {
            r.push(slot);
        }
        proof {
            reveal(Seq::filter);
            assert(slots@.take(i + 1).drop_last() =~= slots@.take(i as int));
            assert(r@ =~= slots@.take(i + 1).filter(present));
        }
        i = i + 1;
    }
    proof {
        assert(slots@.take(slots@.len() as int) =~= slots@);
    }
    r
}

/// The last [`PENDING_CAP`] elements of `waiting`.
fn keep_newest(waiting: Vec<SessionId>) -> (r: Vec<SessionId>)
    ensures
        r@ == newest(waiting@),
{
    let mut waiting = waiting;
    if waiting.len() > PENDING_CAP {
        let overflow: usize = waiting.len() - PENDING_CAP;
        let kept = waiting.split_off(overflow);
        proof {
            assert(kept@ =~= newest(waiting@ + kept@));
        }
        kept
    } else {
        waiting
    }
}

impl SubscriptionStore {
    /// Applies `receiver`'s declaration `update`, replacing what it declared before.
    ///
    /// Pins and slots of absent senders are left out. Absent pins wait, at most
    /// [`PENDING_CAP`] of them with the oldest dropped first, and join the pins of
    /// the first update that finds their sender present.
    pub fn apply_update(
        &mut self,
        receiver: SessionId,
        update: SubscriptionUpdate,
        current_members: &HashSet<SessionId>,
    )
        ensures
            final(self)@ == old(self)@.after_update(receiver, update, current_members@),
    {
        let ghost before = self@;
        let prior: Vec<SessionId> = match self.pending.remove(&receiver) {
            Some(p) => p,
            None => Vec::new(),
        };
        proof {
            assert(prior@ == before.pending_of(receiver));
        }
        let version: u64 = self.version_of(receiver);

        let mut waiting: Vec<SessionId> = Vec::new();
        append_absent(&mut waiting, &prior, current_members);
        append_absent(&mut waiting, &update.pinned_sessions, current_members);
        let waiting = keep_newest(waiting);
        proof {
            let absent = |s: SessionId| !current_members@.contains(s);
            assert(Seq::<SessionId>::empty() + prior@.filter(absent) =~= prior@.filter(absent));
            assert(waiting@ == next_pending(
                prior@,
                update.pinned_sessions@,
                current_members@,
            ));
        }
        if waiting.len() > 0 {
            self.pending.insert(receiver, waiting);
        }
        let mut pinned: HashSet<SessionId> = HashSet::new();
        insert_present(&mut pinned, &update.pinned_sessions, current_members);
        insert_present(&mut pinned, &prior, current_members);
        let sub = ReceiverSubscription {
            pinned,
            slots: present_slots(&update.slots, current_members),
            max_video_kbps: update.max_video_kbps,
            receive_all_audio: update.receive_all_audio,
            receive_all_video: update.receive_all_video,
        };
        proof {
            assert(sub@ =~= declared(prior@, update, current_members@));
        }
        self.per_receiver.insert(receiver, sub);
        self.sub_version.insert(receiver, version.wrapping_add(1));
        cache_remove(&mut self.cache, receiver);
        proof {
            let after = before.after_update(receiver, update, current_members@);
            assert(self@.subs =~= after.subs);
            assert(self@.pending =~= after.pending);
            assert(self@.cache =~= after.cache);
        }
    }

    /// The allow set of `receiver`: the cached one, where the declaration and
    /// both generations are those it was made from, and otherwise a fresh one,
    /// which is cached.
    pub fn resolve_cached(
        &mut self,
        receiver: SessionId,
        current_members: &HashSet<SessionId>,
        members_generation: u64,
        speaker_set: &[SessionId],
        speakers_generation: u64,
        remote_publishers: &RemotePublishers,
    ) -> (allow: Arc<AllowSet>)
        ensures
            allow@ == old(self)@.answer(
                receiver,
                room_inputs(current_members@, speaker_set@, remote_publishers@),
                members_generation,
                speakers_generation,
            ).allow,
            final(self)@ == old(self)@.after_resolve(
                receiver,
                room_inputs(current_members@, speaker_set@, remote_publishers@),
                members_generation,
                speakers_generation,
            ),
    {
        let ghost before = self@;
        let ghost room = room_inputs(current_members@, speaker_set@, remote_publishers@);
        let ghost answer = before.answer(
            receiver,
            room,
            members_generation,
            speakers_generation,
        );
        let sub_version: u64 = self.version_of(receiver);
        match cache_get(&self.cache, receiver) {
            Some(entry) => {
                if entry.sub_version == sub_version && entry.members_generation
                    == members_generation && entry.speakers_generation == speakers_generation {
                    proof {
                        assert(before.cache[receiver] == entry@);
                        assert(self@.cache =~= before.cache.insert(receiver, answer));
                    }
                    return entry.allow;
                }
            },
            None => {},
        }
        let allow: Arc<AllowSet> = Arc::new(
            self.resolve_inner(receiver, current_members, speaker_set, remote_publishers),
        );
        let entry = CachedAllow {
            allow: allow.clone(),
            sub_version,
            members_generation,
            speakers_generation,
        };
        cache_insert(&mut self.cache, receiver, entry);
        proof {
            assert(entry@ =~= answer);
            assert(self@.subs =~= before.subs);
            assert(self@.pending =~= before.pending);
            assert(self@.cache =~= before.cache.insert(receiver, answer));
        }
        allow
    }

    /// Answers every cached receiver anew, so that the packets that follow find
    /// their allow sets made. Adds no receiver to the cache.
    pub fn rewarm_cache(
        &mut self,
        current_members: &HashSet<SessionId>,
        members_generation: u64,
        speaker_set: &[SessionId],
        speakers_generation: u64,
        remote_publishers: &RemotePublishers,
    )
        ensures
            final(self)@ == old(self)@.after_rewarm(
                room_inputs(current_members@, speaker_set@, remote_publishers@),
                members_generation,
                speakers_generation,
            ),
    {
        let ghost before = self@;
        let ghost room = room_inputs(current_members@, speaker_set@, remote_publishers@);
        let receivers: Vec<SessionId> = cache_keys(&self.cache);
        proof {
            assert(before.cache.dom() =~= receivers@.to_set());
        }
        let mut i: usize = 0;
        while i < receivers.len()
            invariant
                i <= receivers@.len(),
                receivers@.no_duplicates(),
                receivers@.to_set() == before.cache.dom(),
                room == room_inputs(current_members@, speaker_set@, remote_publishers@),
                self@.subs == before.subs,
                self@.pending == before.pending,
                self@.versions == before.versions,
                self@.cache.dom() == before.cache.dom(),
                forall|k: int|
                    0 <= k < i ==> self@.cache[#[trigger] receivers@[k]] == before.answer(
                        receivers@[k],
                        room,
                        members_generation,
                        speakers_generation,
                    ),
                forall|k: int|
                    i <= k < receivers@.len() ==> self@.cache[#[trigger] receivers@[k]]
                        == before.cache[receivers@[k]],
            decreases receivers@.len() - i,
        {
            let receiver: SessionId = receivers[i];
            proof {
                assert(receivers@.to_set().contains(receiver));
                assert(self@.cache[receivers@[i as int]] == before.cache[receivers@[i as int]]);
            }
            let ghost mid = self@;
            self.resolve_cached(
                receiver,
                current_members,
                members_generation,
                speaker_set,
                speakers_generation,
                remote_publishers,
            );
            proof {
                assert(mid.answer(receiver, room, members_generation, speakers_generation)
                    == before.answer(receiver, room, members_generation, speakers_generation));
                assert(self@.cache.dom() =~= before.cache.dom());
            }
            i = i + 1;
        }
        proof {
            let after = before.after_rewarm(room, members_generation, speakers_generation);
            assert forall|r: SessionId| before.cache.contains_key(r) implies self@.cache[r]
                == after.cache[r] by {
                assert(receivers@.to_set().contains(r));
                let k = choose|k: int| 0 <= k < receivers@.len() && receivers@[k] == r;
                assert(self@.cache[receivers@[k]] == after.cache[r]);
            }
            assert(self@.cache =~= after.cache);
        }
    }

    /// Whether `receiver` wants the audio, and the video, of everyone. A receiver
    /// that never declared a subscription wants both.
    pub fn receive_mode(&self, receiver: SessionId) -> (r: (bool, bool))
        ensures
            r == match self@.sub(receiver) {
                None => (true, true),
                Some(sub) => (sub.receive_all_audio, sub.receive_all_video),
            },
            r == self@.mode(receiver),
    {
        match self.per_receiver.get(&receiver) {
            None => (true, true),
            Some(sub) => (sub.receive_all_audio, sub.receive_all_video),
        }
    }

    /// Drops everything that is known of `receiver`.
    pub fn forget(&mut self, receiver: SessionId)
        ensures
            final(self)@ == old(self)@.after_forget(receiver),
    {
        let ghost before = self@;
        self.per_receiver.remove(&receiver);
        self.pending.remove(&receiver);
        self.sub_version.remove(&receiver);
        cache_remove(&mut self.cache, receiver);
        proof {
            assert(self@.subs =~= before.subs.remove(receiver));
            assert(self@.pending =~= before.pending.remove(receiver));
            assert(self@.cache =~= before.cache.remove(receiver));
        }
    }
}

impl Default for SubscriptionStore {
    fn default() -> (r: Self)
        ensures
            r@ == (StoreView {
                subs: Map::empty(),
                pending: Map::empty(),
                versions: Map::empty(),
                cache: Map::empty(),
            }),
    {
        SubscriptionStore::new()
    }
}

/// The allow set of a receiver that never declared a subscription.
fn resolve_default(
    receiver: SessionId,
    members: &HashSet<SessionId>,
    speakers: &[SessionId],
    remote: &RemotePublishers,
) -> (allow: AllowSet)
    ensures
        allow@ == default_allow(receiver, room_inputs(members@, speakers@, remote@)),
{
    let audio = collect_everyone_else(receiver, members, remote);
    let mut video: HashMap<SessionId, LayerPref> = HashMap::new();
    admit_all_but(&mut video, members, receiver);
    admit_all_but(&mut video, &remote.video, receiver);
    let allow = AllowSet { audio, video };
    proof {
        assert(allow@.video =~= default_allow(
            receiver,
            room_inputs(members@, speakers@, remote@),
        ).video);
    }
    allow
}

/// The allow set that an explicit subscription resolves to.
fn resolve_explicit(
    sub: &ReceiverSubscription,
    receiver: SessionId,
    members: &HashSet<SessionId>,
    speakers: &[SessionId],
    remote: &RemotePublishers,
) -> (allow: AllowSet)
    ensures
        allow@ == explicit_allow(sub@, receiver, room_inputs(members@, speakers@, remote@)),
{
    let ghost room = room_inputs(members@, speakers@, remote@);
    let ids = collect_visible(sub, receiver, members, speakers, remote);
    let mut video: HashMap<SessionId, LayerPref> = HashMap::new();
    let mut i: usize = 0;
    while i < ids.len()
        invariant
            i <= ids@.len(),
            forall|s: SessionId| video@.contains_key(s) <==> ids@.take(i as int).contains(s),
            forall|s: SessionId|
                video@.contains_key(s) ==> video@[s] == video_pref(sub.slots@, members@, s),
        decreases ids@.len() - i,
    {
        let sid: SessionId = ids[i];
        let pref = if members.contains(&sid) {
            find_slot_pref(&sub.slots, sid)
        } else {
            LayerPref::default()
        };
        video.insert(sid, pref);
        proof {
            crate::ids::lemma_prefix_set(ids@, i as int);
            assert forall|s: SessionId| video@.contains_key(s) <==> ids@.take(i + 1).contains(
                s,
            ) by {
                assert(ids@.take(i + 1).to_set().contains(s) <==> ids@.take(i + 1).contains(s));
                assert(ids@.take(i as int).to_set().contains(s) <==> ids@.take(i as int).contains(
                    s,
                ));
            }
        }
        i = i + 1;
    }
    proof {
        assert(ids@.take(ids@.len() as int) =~= ids@);
        assert(video@ =~= explicit_allow(sub@, receiver, room).video);
    }
    let audio = if sub.receive_all_audio {
        collect_everyone_else(receiver, members, remote)
    } else {
        let mut audio: HashSet<SessionId> = HashSet::new();
        let mut j: usize = 0;
        while j < ids.len()
            invariant
                j <= ids@.len(),
                audio@ == ids@.take(j as int).to_set(),
            decreases ids@.len() - j,
        {
            audio.insert(ids[j]);
            proof {
                crate::ids::lemma_prefix_set(ids@, j as int);
            }
            j = j + 1;
        }
        proof {
            assert(ids@.take(ids@.len() as int) =~= ids@);
            assert(audio@ =~= video@.dom());
        }
        audio
    };
    AllowSet { audio, video }
}

/// The senders whose video an explicit subscription admits, most wanted first.
fn collect_visible(
    sub: &ReceiverSubscription,
    receiver: SessionId,
    members: &HashSet<SessionId>,
    speakers: &[SessionId],
    remote: &RemotePublishers,
) -> (ids: Vec<SessionId>)
    ensures
        ids@ == visible(
            video_candidates(sub@, receiver, room_inputs(members@, speakers@, remote@)),
        ),
{
    let mut out: Vec<SessionId> = Vec::new();
    let ghost mut named: Seq<SessionId> = Seq::empty();
    let pinned = sorted_others(sorted_ids(&sub.pinned).as_slice(), receiver, members, true);
    push_tier(&mut out, &pinned, Ghost(named));
    proof {
        named = extend_tier(named, pinned@.to_set());
    }
    let slotted = sorted_others(slot_ids(&sub.slots).as_slice(), receiver, members, true);
    push_tier(&mut out, &slotted, Ghost(named));
    proof {
        named = extend_tier(named, slotted@.to_set());
    }
    let speaking = sorted_others(speakers, receiver, members, true);
    push_tier(&mut out, &speaking, Ghost(named));
    proof {
        named = extend_tier(named, speaking@.to_set());
    }
    if sub.receive_all_video {
        let remote_video = sorted_others(
            sorted_ids(&remote.video).as_slice(),
            receiver,
            members,
            false,
        );
        push_tier(&mut out, &remote_video, Ghost(named));
        proof {
            named = extend_tier(named, remote_video@.to_set());
        }
        let everyone = sorted_others(sorted_ids(members).as_slice(), receiver, members, true);
        push_tier(&mut out, &everyone, Ghost(named));
    }
    out
}

impl RoomInputs {
    /// Rooms are finite.
    pub open spec fn finite(self) -> bool {
        self.members.finite() && self.remote.audio.finite() && self.remote.video.finite()
    }
}

/// A tier adds exactly its own elements.
proof fn lemma_extend_tier(c: Seq<SessionId>, tier: Set<SessionId>)
    requires
        tier.finite(),
    ensures
        extend_tier(c, tier).to_set() == c.to_set().union(tier),
        c.len() <= extend_tier(c, tier).len(),
        c == extend_tier(c, tier).take(c.len() as int),
        c.no_duplicates() ==> extend_tier(c, tier).no_duplicates(),
{
    let fresh = tier.difference(c.to_set());
    crate::ids::lemma_ascending_exists(fresh);
    let q = crate::ids::ascending(fresh);
    let r = extend_tier(c, tier);
    assert forall|s: SessionId| r.to_set().contains(s) <==> c.to_set().union(tier).contains(s) by {
        if c.to_set().contains(s) {
            let k = choose|k: int| 0 <= k < c.len() && c[k] == s;
            assert(r[k] == s);
        }
        if fresh.contains(s) {
            assert(q.to_set().contains(s));
            let k = choose|k: int| 0 <= k < q.len() && q[k] == s;
            assert(r[c.len() + k] == s);
        }
        if r.to_set().contains(s) {
            let k = choose|k: int| 0 <= k < r.len() && r[k] == s;
            if k < c.len() {
                assert(c[k] == s);
            } else {
                assert(q[k - c.len()] == s);
                assert(q.to_set().contains(s));
            }
        }
    }
    assert(r.to_set() =~= c.to_set().union(tier));
    assert(c =~= r.take(c.len() as int));
    if c.no_duplicates() {
        assert forall|i: int, j: int| 0 <= i < j < r.len() implies r[i] != r[j] by {
            if i < c.len() && j >= c.len() {
                assert(q.to_set().contains(q[j - c.len()]));
                assert(c.to_set().contains(c[i]));
            }
        }
    }
}

/// Who is a candidate at all: the union of the tiers.
proof fn lemma_candidates(sub: SubView, receiver: SessionId, room: RoomInputs)
    requires
        sub.pinned.finite(),
        room.finite(),
    ensures
        forall|s: SessionId| #[trigger]
            video_candidates(sub, receiver, room).contains(s) ==> s != receiver && (
            room.members.contains(s) || sub.receive_all_video && room.remote.video.contains(s)),
        ({
            let pins = others(sub.pinned, receiver, room.members, true);
            let c = video_candidates(sub, receiver, room);
            &&& pins.finite()
            &&& pins.len() <= c.len()
            &&& c.take(pins.len() as int).to_set() == pins
        }),
        video_candidates(sub, receiver, room).no_duplicates(),
        sub.receive_all_video ==> video_candidates(sub, receiver, room).to_set()
            == room.members.union(room.remote.video).remove(receiver),
{
    let slot_ids = sub.slots.map_values(|s: VisibilitySlot| s.session_id).to_set();
    let t1 = others(sub.pinned, receiver, room.members, true);
    let t2 = others(slot_ids, receiver, room.members, true);
    let t3 = others(room.speakers.to_set(), receiver, room.members, true);
    let t4 = others(room.remote.video, receiver, room.members, false);
    let t5 = others(room.members, receiver, room.members, true);
    vstd::seq_lib::seq_to_set_is_finite(
        sub.slots.map_values(|s: VisibilitySlot| s.session_id),
    );
    vstd::seq_lib::seq_to_set_is_finite(room.speakers);
    sub.pinned.lemma_len_filter(|s: SessionId| s != receiver && room.members.contains(s) == true);
    slot_ids.lemma_len_filter(|s: SessionId| s != receiver && room.members.contains(s) == true);
    room.speakers.to_set().lemma_len_filter(
        |s: SessionId| s != receiver && room.members.contains(s) == true,
    );
    room.remote.video.lemma_len_filter(
        |s: SessionId| s != receiver && room.members.contains(s) == false,
    );
    room.members.lemma_len_filter(
        |s: SessionId| s != receiver && room.members.contains(s) == true,
    );
    let c0 = Seq::<SessionId>::empty();
    let c1 = extend_tier(c0, t1);
    let c2 = extend_tier(c1, t2);
    let c3 = extend_tier(c2, t3);
    let c4 = extend_tier(c3, t4);
    let c5 = extend_tier(c4, t5);
    lemma_extend_tier(c0, t1);
    lemma_extend_tier(c1, t2);
    lemma_extend_tier(c2, t3);
    lemma_extend_tier(c3, t4);
    lemma_extend_tier(c4, t5);
    let c = video_candidates(sub, receiver, room);
    assert(c == if sub.receive_all_video { c5 } else { c3 });
    assert forall|s: SessionId| #[trigger] c.contains(s) implies s != receiver && (
    room.members.contains(s) || sub.receive_all_video && room.remote.video.contains(s)) by {
        assert(c.to_set().contains(s));
    }
    assert(c1.len() == t1.len()) by {
        crate::ids::lemma_ascending_exists(t1);
        assert(t1.difference(c0.to_set()) =~= t1);
        let q = crate::ids::ascending(t1);
        assert(c1 =~= q);
        q.unique_seq_to_set();
    }
    assert(c1.to_set() =~= t1);
    assert(c.take(c1.len() as int) =~= c1);
    if sub.receive_all_video {
        assert(c.to_set() =~= room.members.union(room.remote.video).remove(receiver));
    }
}

/// A receiver never appears in its own allow set.
pub proof fn law_receiver_not_in_own_allow_set(
    sub: Option<SubView>,
    receiver: SessionId,
    room: RoomInputs,
)
    requires
        room.finite(),
        sub matches Some(s) ==> s.pinned.finite(),
    ensures
        !resolved(sub, receiver, room).audio.contains(receiver),
        !resolved(sub, receiver, room).video.contains_key(receiver),
{
    if let Some(s) = sub {
        lemma_candidates(s, receiver, room);
        let c = video_candidates(s, receiver, room);
        if visible(c).contains(receiver) {
            let k = choose|k: int| 0 <= k < visible(c).len() && visible(c)[k] == receiver;
            assert(c[k] == receiver);
            assert(c.contains(receiver));
        }
    }
}

/// An explicit subscription admits the video of at most [`MAX_VISIBLE_VIDEO`] senders.
pub proof fn law_explicit_video_is_capped(sub: SubView, receiver: SessionId, room: RoomInputs)
    ensures
        explicit_allow(sub, receiver, room).video.dom().finite(),
        explicit_allow(sub, receiver, room).video.dom().len() <= MAX_VISIBLE_VIDEO,
{
    let ids = visible(video_candidates(sub, receiver, room));
    assert(explicit_allow(sub, receiver, room).video.dom() =~= ids.to_set());
    vstd::seq_lib::seq_to_set_is_finite(ids);
    ids.lemma_cardinality_of_set();
}

/// An explicit subscription admits only members, and remote video publishers
/// where it asks for everyone's video.
pub proof fn law_explicit_video_is_present(sub: SubView, receiver: SessionId, room: RoomInputs)
    requires
        room.finite(),
        sub.pinned.finite(),
    ensures
        forall|s: SessionId| #[trigger]
            explicit_allow(sub, receiver, room).video.contains_key(s) ==> room.members.contains(s)
                || sub.receive_all_video && room.remote.video.contains(s),
{
    lemma_candidates(sub, receiver, room);
    let c = video_candidates(sub, receiver, room);
    assert forall|s: SessionId| #[trigger]
        explicit_allow(sub, receiver, room).video.contains_key(s) implies room.members.contains(s)
        || sub.receive_all_video && room.remote.video.contains(s) by {
        let k = choose|k: int| 0 <= k < visible(c).len() && visible(c)[k] == s;
        assert(c[k] == s);
        assert(c.contains(s));
    }
}

/// Pins come first: as long as they fit under the cap, every pinned member is
/// admitted, whatever slots, speakers and receive-all add.
pub proof fn law_pins_win_the_cap(sub: SubView, receiver: SessionId, room: RoomInputs)
    requires
        room.finite(),
        sub.pinned.finite(),
        others(sub.pinned, receiver, room.members, true).len() <= MAX_VISIBLE_VIDEO,
    ensures
        forall|s: SessionId|
            s != receiver && room.members.contains(s) && #[trigger] sub.pinned.contains(s)
                ==> explicit_allow(sub, receiver, room).video.contains_key(s),
{
    lemma_candidates(sub, receiver, room);
    let pins = others(sub.pinned, receiver, room.members, true);
    let c = video_candidates(sub, receiver, room);
    assert forall|s: SessionId|
        s != receiver && room.members.contains(s) && #[trigger] sub.pinned.contains(
            s,
        ) implies explicit_allow(sub, receiver, room).video.contains_key(s) by {
        assert(pins.contains(s));
        assert(c.take(pins.len() as int).to_set().contains(s));
        let k = choose|k: int|
            0 <= k < pins.len() && c.take(pins.len() as int)[k] == s;
        assert(visible(c)[k] == s);
    }
}

/// A receiver that asked for everyone's video sees everyone, also who came after it
/// asked, as long as all of them fit under the cap.
pub proof fn law_receive_all_video_sees_everyone(
    sub: SubView,
    receiver: SessionId,
    room: RoomInputs,
)
    requires
        room.finite(),
        sub.pinned.finite(),
        sub.receive_all_video,
        room.members.union(room.remote.video).remove(receiver).len() <= MAX_VISIBLE_VIDEO,
    ensures
        explicit_allow(sub, receiver, room).video.dom() == room.members.union(
            room.remote.video,
        ).remove(receiver),
{
    lemma_candidates(sub, receiver, room);
    let c = video_candidates(sub, receiver, room);
    c.unique_seq_to_set();
    assert(explicit_allow(sub, receiver, room).video.dom() =~= c.to_set());
}

/// Audio mirrors video, unless the receiver asked for everyone's audio.
pub proof fn law_audio_follows_video(sub: SubView, receiver: SessionId, room: RoomInputs)
    ensures
        !sub.receive_all_audio ==> explicit_allow(sub, receiver, room).audio == explicit_allow(
            sub,
            receiver,
            room,
        ).video.dom(),
        sub.receive_all_audio ==> explicit_allow(sub, receiver, room).audio == everyone_else(
            receiver,
            room,
        ),
{
}

/// A declaration replaces the one before: what is stored depends on the update,
/// the members and the pins that waited, and on nothing else in the store.
pub proof fn law_update_replaces(
    a: StoreView,
    b: StoreView,
    receiver: SessionId,
    update: SubscriptionUpdate,
    members: Set<SessionId>,
)
    requires
        a.pending_of(receiver) == b.pending_of(receiver),
    ensures
        a.after_update(receiver, update, members).sub(receiver) == b.after_update(
            receiver,
            update,
            members,
        ).sub(receiver),
        a.after_update(receiver, update, members).pending_of(receiver) == b.after_update(
            receiver,
            update,
            members,
        ).pending_of(receiver),
{
}

/// An update of one receiver leaves every other receiver as it was.
pub proof fn law_update_is_local(
    store: StoreView,
    receiver: SessionId,
    other: SessionId,
    update: SubscriptionUpdate,
    members: Set<SessionId>,
)
    requires
        other != receiver,
    ensures
        ({
            let after = store.after_update(receiver, update, members);
            &&& after.sub(other) == store.sub(other)
            &&& after.pending_of(other) == store.pending_of(other)
            &&& after.version(other) == store.version(other)
            &&& after.cache.contains_key(other) == store.cache.contains_key(other)
            &&& store.cache.contains_key(other) ==> after.cache[other] == store.cache[other]
        }),
{
}

/// No receiver has more than [`PENDING_CAP`] pins waiting.
pub open spec fn pending_bounded(store: StoreView) -> bool {
    forall|r: SessionId| #[trigger] store.pending_of(r).len() <= PENDING_CAP
}

/// The bound on waiting pins survives every operation.
pub proof fn law_pending_stays_bounded(
    store: StoreView,
    receiver: SessionId,
    update: SubscriptionUpdate,
    members: Set<SessionId>,
)
    requires
        pending_bounded(store),
    ensures
        pending_bounded(store.after_update(receiver, update, members)),
        pending_bounded(store.after_forget(receiver)),
{
    let after = store.after_update(receiver, update, members);
    assert forall|r: SessionId| #[trigger] after.pending_of(r).len() <= PENDING_CAP by {
        assert(store.pending_of(r).len() <= PENDING_CAP);
    }
    let gone = store.after_forget(receiver);
    assert forall|r: SessionId| #[trigger] gone.pending_of(r).len() <= PENDING_CAP by {
        assert(store.pending_of(r).len() <= PENDING_CAP);
    }
}

/// A pin that waited for its sender is honoured by the first update that finds
/// the sender present, and waits no longer.
pub proof fn law_waiting_pin_is_promoted(
    store: StoreView,
    receiver: SessionId,
    update: SubscriptionUpdate,
    members: Set<SessionId>,
    sid: SessionId,
)
    requires
        store.pending_of(receiver).contains(sid),
        members.contains(sid),
    ensures
        ({
            let after = store.after_update(receiver, update, members);
            &&& after.sub(receiver) matches Some(sub) && sub.pinned.contains(sid)
            &&& !after.pending_of(receiver).contains(sid)
        }),
{
    let pending = store.pending_of(receiver);
    assert(pending.to_set().contains(sid));
    let absent = |s: SessionId| !members.contains(s);
    let pinned = update.pinned_sessions@;
    let all = pending.filter(absent) + pinned.filter(absent);
    let waiting = next_pending(pending, pinned, members);
    if waiting.contains(sid) {
        let k = choose|k: int| 0 <= k < waiting.len() && waiting[k] == sid;
        let j = if all.len() <= PENDING_CAP {
            k
        } else {
            k + all.len() - PENDING_CAP
        };
        assert(all[j] == sid);
        if j < pending.filter(absent).len() {
            pending.lemma_filter_pred(absent, j);
        } else {
            pinned.lemma_filter_pred(absent, j - pending.filter(absent).len());
        }
    }
}

/// A forgotten receiver is treated as one that never declared anything.
pub proof fn law_forget_restores_default(
    store: StoreView,
    receiver: SessionId,
    room: RoomInputs,
    members_generation: u64,
    speakers_generation: u64,
)
    ensures
        store.after_forget(receiver).sub(receiver) is None,
        store.after_forget(receiver).pending_of(receiver).len() == 0,
        store.after_forget(receiver).answer(
            receiver,
            room,
            members_generation,
            speakers_generation,
        ).allow == default_allow(receiver, room),
{
}

/// Every cached answer is what its receiver's current declaration resolves to
/// under the inputs that its generations stand for. `inputs` says which inputs
/// a pair of generations stands for.
pub open spec fn cache_coherent(
    store: StoreView,
    inputs: spec_fn(u64, u64) -> RoomInputs,
) -> bool {
    forall|r: SessionId| #[trigger]
        store.cache.contains_key(r) ==> {
            let e = store.cache[r];
            &&& e.sub_version == store.version(r)
            &&& e.allow == resolved(
                store.sub(r),
                r,
                inputs(e.members_generation, e.speakers_generation),
            )
        }
}

/// The cache never serves a stale allow set: where every pair of generations
/// stands for one state of the room, an answer is what a fresh resolution gives,
/// and it stays so after any operation on the store.
pub proof fn law_cache_is_never_stale(
    store: StoreView,
    inputs: spec_fn(u64, u64) -> RoomInputs,
    receiver: SessionId,
    members_generation: u64,
    speakers_generation: u64,
    update: SubscriptionUpdate,
    members: Set<SessionId>,
)
    requires
        cache_coherent(store, inputs),
    ensures
        ({
            let room = inputs(members_generation, speakers_generation);
            &&& store.answer(receiver, room, members_generation, speakers_generation).allow
                == resolved(store.sub(receiver), receiver, room)
            &&& cache_coherent(
                store.after_resolve(receiver, room, members_generation, speakers_generation),
                inputs,
            )
            &&& cache_coherent(
                store.after_rewarm(room, members_generation, speakers_generation),
                inputs,
            )
        }),
        cache_coherent(store.after_update(receiver, update, members), inputs),
        cache_coherent(store.after_forget(receiver), inputs),
{
    let room = inputs(members_generation, speakers_generation);
    let resolved_store = store.after_resolve(
        receiver,
        room,
        members_generation,
        speakers_generation,
    );
    assert(store.cache.contains_key(receiver) ==> store.cache[receiver].sub_version
        == store.version(receiver));
    assert forall|r: SessionId| #[trigger] resolved_store.cache.contains_key(r) implies {
        let e = resolved_store.cache[r];
        &&& e.sub_version == resolved_store.version(r)
        &&& e.allow == resolved(
            resolved_store.sub(r),
            r,
            inputs(e.members_generation, e.speakers_generation),
        )
    } by {
        if r != receiver {
            assert(store.cache.contains_key(r));
        }
    }
    let warm = store.after_rewarm(room, members_generation, speakers_generation);
    assert forall|r: SessionId| #[trigger] warm.cache.contains_key(r) implies {
        let e = warm.cache[r];
        &&& e.sub_version == warm.version(r)
        &&& e.allow == resolved(
            warm.sub(r),
            r,
            inputs(e.members_generation, e.speakers_generation),
        )
    } by {
        assert(store.cache.contains_key(r));
    }
    let updated = store.after_update(receiver, update, members);
    assert forall|r: SessionId| #[trigger] updated.cache.contains_key(r) implies {
        let e = updated.cache[r];
        &&& e.sub_version == updated.version(r)
        &&& e.allow == resolved(
            updated.sub(r),
            r,
            inputs(e.members_generation, e.speakers_generation),
        )
    } by {
        assert(store.cache.contains_key(r));
    }
    let gone = store.after_forget(receiver);
    assert forall|r: SessionId| #[trigger] gone.cache.contains_key(r) implies {
        let e = gone.cache[r];
        &&& e.sub_version == gone.version(r)
        &&& e.allow == resolved(
            gone.sub(r),
            r,
            inputs(e.members_generation, e.speakers_generation),
        )
    } by {
        assert(store.cache.contains_key(r));
    }
}

/// Rewarming is a matter of speed alone: it touches the cached receivers and no
/// others, and an answer after it is the answer that would have come without it.
pub proof fn law_rewarm_changes_no_answer(
    store: StoreView,
    receiver: SessionId,
    room: RoomInputs,
    members_generation: u64,
    speakers_generation: u64,
)
    ensures
        store.after_rewarm(room, members_generation, speakers_generation).cache.dom()
            == store.cache.dom(),
        store.after_rewarm(room, members_generation, speakers_generation).answer(
            receiver,
            room,
            members_generation,
            speakers_generation,
        ) == store.answer(receiver, room, members_generation, speakers_generation),
{
    assert(store.after_rewarm(room, members_generation, speakers_generation).cache.dom()
        =~= store.cache.dom());
}

/// How much a receiver wants the video of `s`, from most wanted to least: 0 for a
/// member that it pinned, 1 for one that a slot names, 2 for one that speaks; then,
/// if it wants everyone's video, 3 for a remote publisher and 4 for any other
/// member. It does not want anyone else, nor itself.
pub open spec fn wish(sub: SubView, receiver: SessionId, room: RoomInputs, s: SessionId) -> int {
    if s == receiver {
        5
    } else if !room.members.contains(s) {
        if sub.receive_all_video && room.remote.video.contains(s) {
            3
        } else {
            5
        }
    } else if sub.pinned.contains(s) {
        0
    } else if exists|i: int| 0 <= i < sub.slots.len() && (#[trigger] sub.slots[i]).session_id == s {
        1
    } else if room.speakers.contains(s) {
        2
    } else if sub.receive_all_video {
        4
    } else {
        5
    }
}

/// The video of `a` is wanted more than that of `b`, or as much and its id is smaller.
pub open spec fn wanted_before(
    sub: SubView,
    receiver: SessionId,
    room: RoomInputs,
    a: SessionId,
    b: SessionId,
) -> bool {
    let x = wish(sub, receiver, room, a);
    let y = wish(sub, receiver, room, b);
    x < y || x == y && a < b
}

/// `c` lists senders in the order in which they are wanted, all more than `r`.
spec fn in_order(
    sub: SubView,
    receiver: SessionId,
    room: RoomInputs,
    c: Seq<SessionId>,
    r: int,
) -> bool {
    &&& forall|i: int, j: int|
        0 <= i < j < c.len() ==> wanted_before(sub, receiver, room, #[trigger] c[i], #[trigger] c[j])
    &&& forall|i: int| 0 <= i < c.len() ==> wish(sub, receiver, room, #[trigger] c[i]) < r
}

/// A tier whose new elements are wanted equally keeps the order.
proof fn lemma_tier_in_order(
    sub: SubView,
    receiver: SessionId,
    room: RoomInputs,
    c: Seq<SessionId>,
    tier: Set<SessionId>,
    r: int,
)
    requires
        tier.finite(),
        in_order(sub, receiver, room, c, r),
        forall|s: SessionId| #[trigger]
            tier.contains(s) && !c.contains(s) ==> wish(sub, receiver, room, s) == r,
    ensures
        in_order(sub, receiver, room, extend_tier(c, tier), r + 1),
{
    let fresh = tier.difference(c.to_set());
    crate::ids::lemma_ascending_exists(fresh);
    let q = crate::ids::ascending(fresh);
    let e = extend_tier(c, tier);
    assert forall|k: int| 0 <= k < q.len() implies wish(sub, receiver, room, #[trigger] q[k])
        == r by {
        assert(q.to_set().contains(q[k]));
        assert(!c.to_set().contains(q[k]));
        assert(tier.contains(q[k]) && !c.contains(q[k]));
    }
    assert forall|i: int| 0 <= i < e.len() implies wish(sub, receiver, room, #[trigger] e[i]) < r
        + 1 by {
        if i < c.len() {
            assert(e[i] == c[i]);
        } else {
            assert(e[i] == q[i - c.len()]);
        }
    }
    assert forall|i: int, j: int| 0 <= i < j < e.len() implies wanted_before(
        sub,
        receiver,
        room,
        #[trigger] e[i],
        #[trigger] e[j],
    ) by {
        if j < c.len() {
            assert(e[i] == c[i] && e[j] == c[j]);
        } else if i < c.len() {
            assert(e[i] == c[i] && e[j] == q[j - c.len()]);
        } else {
            assert(e[i] == q[i - c.len()] && e[j] == q[j - c.len()]);
        }
    }
}

/// The candidates are those whose video is wanted, in the order in which it is.
proof fn lemma_candidates_in_order(sub: SubView, receiver: SessionId, room: RoomInputs)
    requires
        sub.pinned.finite(),
        room.finite(),
    ensures
        in_order(sub, receiver, room, video_candidates(sub, receiver, room), 5),
        forall|s: SessionId|
            video_candidates(sub, receiver, room).contains(s) <==> #[trigger] wish(
                sub,
                receiver,
                room,
                s,
            ) < 5,
{
    let named = sub.slots.map_values(|s: VisibilitySlot| s.session_id);
    let slot_ids = named.to_set();
    let t1 = others(sub.pinned, receiver, room.members, true);
    let t2 = others(slot_ids, receiver, room.members, true);
    let t3 = others(room.speakers.to_set(), receiver, room.members, true);
    let t4 = others(room.remote.video, receiver, room.members, false);
    let t5 = others(room.members, receiver, room.members, true);
    vstd::seq_lib::seq_to_set_is_finite(named);
    vstd::seq_lib::seq_to_set_is_finite(room.speakers);
    sub.pinned.lemma_len_filter(|s: SessionId| s != receiver && room.members.contains(s) == true);
    slot_ids.lemma_len_filter(|s: SessionId| s != receiver && room.members.contains(s) == true);
    room.speakers.to_set().lemma_len_filter(
        |s: SessionId| s != receiver && room.members.contains(s) == true,
    );
    room.remote.video.lemma_len_filter(
        |s: SessionId| s != receiver && room.members.contains(s) == false,
    );
    room.members.lemma_len_filter(
        |s: SessionId| s != receiver && room.members.contains(s) == true,
    );
    let c0 = Seq::<SessionId>::empty();
    let c1 = extend_tier(c0, t1);
    let c2 = extend_tier(c1, t2);
    let c3 = extend_tier(c2, t3);
    let c4 = extend_tier(c3, t4);
    let c5 = extend_tier(c4, t5);
    lemma_extend_tier(c0, t1);
    lemma_extend_tier(c1, t2);
    lemma_extend_tier(c2, t3);
    lemma_extend_tier(c3, t4);
    lemma_extend_tier(c4, t5);
    assert forall|s: SessionId| #[trigger] slot_ids.contains(s) <==> exists|i: int|
        0 <= i < sub.slots.len() && (#[trigger] sub.slots[i]).session_id == s by {
        if slot_ids.contains(s) {
            let k = choose|k: int| 0 <= k < named.len() && named[k] == s;
            assert(sub.slots[k].session_id == s);
        }
        if exists|i: int| 0 <= i < sub.slots.len() && (#[trigger] sub.slots[i]).session_id == s {
            let i = choose|i: int|
                0 <= i < sub.slots.len() && (#[trigger] sub.slots[i]).session_id == s;
            assert(named[i] == s);
        }
    }
    assert(c0.to_set() =~= Set::empty());
    assert(c1.to_set() =~= t1);
    assert(c2.to_set() =~= t1.union(t2));
    assert(c3.to_set() =~= t1.union(t2).union(t3));
    assert(c4.to_set() =~= t1.union(t2).union(t3).union(t4));
    assert(c5.to_set() =~= t1.union(t2).union(t3).union(t4).union(t5));
    assert forall|s: SessionId| #[trigger] t2.contains(s) && !c1.contains(s) implies wish(
        sub,
        receiver,
        room,
        s,
    ) == 1 by {
        assert(!c1.to_set().contains(s));
        assert(slot_ids.contains(s));
        assert(!t1.contains(s));
    }
    assert forall|s: SessionId| #[trigger] t3.contains(s) && !c2.contains(s) implies wish(
        sub,
        receiver,
        room,
        s,
    ) == 2 by {
        assert(!c2.to_set().contains(s));
        assert(!t1.contains(s) && !t2.contains(s));
        assert(!slot_ids.contains(s));
    }
    lemma_tier_in_order(sub, receiver, room, c0, t1, 0);
    lemma_tier_in_order(sub, receiver, room, c1, t2, 1);
    lemma_tier_in_order(sub, receiver, room, c2, t3, 2);
    let c = video_candidates(sub, receiver, room);
    assert(c == if sub.receive_all_video { c5 } else { c3 });
    if sub.receive_all_video {
        assert forall|s: SessionId| #[trigger] t5.contains(s) && !c4.contains(s) implies wish(
            sub,
            receiver,
            room,
            s,
        ) == 4 by {
            assert(!c4.to_set().contains(s));
            assert(!t1.contains(s) && !t2.contains(s) && !t3.contains(s));
            assert(!slot_ids.contains(s));
            assert(!room.speakers.to_set().contains(s));
        }
        lemma_tier_in_order(sub, receiver, room, c3, t4, 3);
        lemma_tier_in_order(sub, receiver, room, c4, t5, 4);
    }
    assert forall|s: SessionId| c.contains(s) <==> #[trigger] wish(sub, receiver, room, s) < 5 by {
        if c.contains(s) {
            let k = choose|k: int| 0 <= k < c.len() && c[k] == s;
            assert(wish(sub, receiver, room, c[k]) < 5);
        }
        if wish(sub, receiver, room, s) < 5 {
            let w = wish(sub, receiver, room, s);
            if w == 0 {
                assert(t1.contains(s));
            } else if w == 1 {
                assert(slot_ids.contains(s));
                assert(t2.contains(s));
            } else if w == 2 {
                assert(room.speakers.to_set().contains(s));
                assert(t3.contains(s));
            } else if w == 3 {
                assert(t4.contains(s));
            } else {
                assert(t5.contains(s));
            }
            assert(c.to_set().contains(s));
        }
    }
}

/// An explicit subscription admits exactly the six most wanted: those whose video is
/// wanted at all and for whom fewer than six others come first.
pub proof fn law_most_wanted_are_admitted(
    sub: SubView,
    receiver: SessionId,
    room: RoomInputs,
    s: SessionId,
)
    requires
        room.finite(),
        sub.pinned.finite(),
    ensures
        ({
            let first = Set::new(|t: SessionId| wanted_before(sub, receiver, room, t, s));
            &&& wish(sub, receiver, room, s) < 5 ==> first.finite()
            &&& resolved(Some(sub), receiver, room).video.contains_key(s) <==> wish(
                sub,
                receiver,
                room,
                s,
            ) < 5 && first.len() < 6
        }),
{
    let c = video_candidates(sub, receiver, room);
    let first = Set::new(|t: SessionId| wanted_before(sub, receiver, room, t, s));
    lemma_candidates(sub, receiver, room);
    lemma_candidates_in_order(sub, receiver, room);
    let v = visible(c);
    if wish(sub, receiver, room, s) < 5 {
        assert(c.contains(s));
        let k = choose|k: int| 0 <= k < c.len() && c[k] == s;
        let head = c.take(k);
        assert forall|t: SessionId| first.contains(t) <==> head.to_set().contains(t) by {
            if first.contains(t) {
                assert(wish(sub, receiver, room, t) < 5);
                assert(c.contains(t));
                let j = choose|j: int| 0 <= j < c.len() && c[j] == t;
                if k < j {
                    assert(wanted_before(sub, receiver, room, c[k], c[j]));
                }
                assert(j < k);
                assert(head[j] == t);
            }
            if head.to_set().contains(t) {
                let j = choose|j: int| 0 <= j < head.len() && head[j] == t;
                assert(wanted_before(sub, receiver, room, c[j], c[k]));
            }
        }
        assert(first =~= head.to_set());
        vstd::seq_lib::seq_to_set_is_finite(head);
        assert(head.no_duplicates());
        head.unique_seq_to_set();
        assert(first.len() == k);
        if k < 6 {
            assert(v[k] == s);
            assert(v.contains(s));
        } else if v.contains(s) {
            let j = choose|j: int| 0 <= j < v.len() && v[j] == s;
            assert(c[j] == c[k]);
        }
    } else if v.contains(s) {
        let j = choose|j: int| 0 <= j < v.len() && v[j] == s;
        assert(c[j] == s);
        assert(c.contains(s));
    }
}

/// Slots come next: as long as the pinned and slotted members fit under the cap
/// together, every member that some slot names is admitted, and every pinned one.
pub proof fn law_slots_come_after_pins(sub: SubView, receiver: SessionId, room: RoomInputs)
    requires
        room.finite(),
        sub.pinned.finite(),
        room.members.remove(receiver).filter(
            |s: SessionId|
                sub.pinned.contains(s) || exists|i: int|
                    0 <= i < sub.slots.len() && (#[trigger] sub.slots[i]).session_id == s,
        ).len() <= 6,
    ensures
        forall|i: int|
            0 <= i < sub.slots.len() && room.members.contains(
                (#[trigger] sub.slots[i]).session_id,
            ) && sub.slots[i].session_id != receiver ==> resolved(
                Some(sub),
                receiver,
                room,
            ).video.contains_key(sub.slots[i].session_id),
        forall|s: SessionId| #[trigger]
            sub.pinned.contains(s) && room.members.contains(s) && s != receiver ==> resolved(
                Some(sub),
                receiver,
                room,
            ).video.contains_key(s),
{
    let p = |s: SessionId|
        sub.pinned.contains(s) || exists|i: int|
            0 <= i < sub.slots.len() && (#[trigger] sub.slots[i]).session_id == s;
    let named = room.members.remove(receiver).filter(p);
    room.members.remove(receiver).lemma_len_filter(p);
    assert forall|s: SessionId| #[trigger] named.contains(s) implies resolved(
        Some(sub),
        receiver,
        room,
    ).video.contains_key(s) by {
        lemma_few_are_admitted(sub, receiver, room, named, s);
    }
    assert forall|i: int|
        0 <= i < sub.slots.len() && room.members.contains((#[trigger] sub.slots[i]).session_id)
            && sub.slots[i].session_id != receiver implies resolved(
        Some(sub),
        receiver,
        room,
    ).video.contains_key(sub.slots[i].session_id) by {
        assert(named.contains(sub.slots[i].session_id));
    }
    assert forall|s: SessionId| #[trigger]
        sub.pinned.contains(s) && room.members.contains(s) && s != receiver implies resolved(
        Some(sub),
        receiver,
        room,
    ).video.contains_key(s) by {
        assert(named.contains(s));
    }
}

/// Speakers come after that: as long as the pinned, slotted and speaking members fit
/// under the cap together, every speaking member is admitted, asked for or not.
pub proof fn law_speakers_come_after_slots(sub: SubView, receiver: SessionId, room: RoomInputs)
    requires
        room.finite(),
        sub.pinned.finite(),
        room.members.remove(receiver).filter(
            |s: SessionId|
                sub.pinned.contains(s) || room.speakers.contains(s) || exists|i: int|
                    0 <= i < sub.slots.len() && (#[trigger] sub.slots[i]).session_id == s,
        ).len() <= 6,
    ensures
        forall|s: SessionId| #[trigger]
            room.speakers.contains(s) && room.members.contains(s) && s != receiver ==> resolved(
                Some(sub),
                receiver,
                room,
            ).video.contains_key(s),
{
    let p = |s: SessionId|
        sub.pinned.contains(s) || room.speakers.contains(s) || exists|i: int|
            0 <= i < sub.slots.len() && (#[trigger] sub.slots[i]).session_id == s;
    let named = room.members.remove(receiver).filter(p);
    room.members.remove(receiver).lemma_len_filter(p);
    assert forall|s: SessionId| #[trigger]
        room.speakers.contains(s) && room.members.contains(s) && s != receiver implies resolved(
        Some(sub),
        receiver,
        room,
    ).video.contains_key(s) by {
        assert(named.contains(s));
        lemma_few_are_admitted(sub, receiver, room, named, s);
    }
}

/// Someone in a set of at most six wanted senders, that holds everyone who is wanted
/// more, is admitted.
proof fn lemma_few_are_admitted(
    sub: SubView,
    receiver: SessionId,
    room: RoomInputs,
    named: Set<SessionId>,
    s: SessionId,
)
    requires
        room.finite(),
        sub.pinned.finite(),
        named.finite(),
        named.len() <= 6,
        named.contains(s),
        wish(sub, receiver, room, s) < 5,
        forall|t: SessionId|
            #![trigger named.contains(t)]
            wish(sub, receiver, room, t) <= wish(sub, receiver, room, s) ==> named.contains(t),
    ensures
        resolved(Some(sub), receiver, room).video.contains_key(s),
{
    law_most_wanted_are_admitted(sub, receiver, room, s);
    let first = Set::new(|t: SessionId| wanted_before(sub, receiver, room, t, s));
    assert forall|t: SessionId| #[trigger] first.contains(t) implies named.remove(s).contains(
        t,
    ) by {
        assert(wish(sub, receiver, room, t) <= wish(sub, receiver, room, s));
        assert(named.contains(t));
    }
    vstd::set_lib::lemma_len_subset(first, named.remove(s));
}

/// The layers of an admitted member are those that the first slot naming it asks for,
/// and the base layer if no slot does. A remote publisher comes at the base layer.
pub proof fn law_first_slot_sets_the_layers(
    sub: SubView,
    receiver: SessionId,
    room: RoomInputs,
    s: SessionId,
    i: int,
)
    requires
        resolved(Some(sub), receiver, room).video.contains_key(s),
        0 <= i <= sub.slots.len(),
        forall|j: int| 0 <= j < i ==> (#[trigger] sub.slots[j]).session_id != s,
    ensures
        ({
            let pref = resolved(Some(sub), receiver, room).video[s];
            &&& room.members.contains(s) && i < sub.slots.len() && sub.slots[i].session_id == s ==> {
                &&& pref.preferred_spatial == sub.slots[i].preferred_spatial
                &&& pref.preferred_temporal == sub.slots[i].preferred_temporal
            }
            &&& !room.members.contains(s) || i == sub.slots.len() ==> {
                &&& pref.preferred_spatial == 0
                &&& pref.preferred_temporal == 0
            }
        }),
{
    lemma_slot_pref(sub.slots, s, i);
}

proof fn lemma_slot_pref(slots: Seq<VisibilitySlot>, s: SessionId, i: int)
    requires
        0 <= i <= slots.len(),
        forall|j: int| 0 <= j < i ==> (#[trigger] slots[j]).session_id != s,
    ensures
        i == slots.len() ==> slot_pref(slots, s) == base_pref(),
        i < slots.len() && slots[i].session_id == s ==> {
            &&& slot_pref(slots, s).preferred_spatial == slots[i].preferred_spatial
            &&& slot_pref(slots, s).preferred_temporal == slots[i].preferred_temporal
        },
    decreases slots.len(),
{
    if slots.len() > 0 && i > 0 {
        let rest = slots.drop_first();
        assert forall|j: int| 0 <= j < i - 1 implies (#[trigger] rest[j]).session_id != s by {
            assert(rest[j] == slots[j + 1]);
        }
        lemma_slot_pref(rest, s, i - 1);
        assert(slots[0].session_id != s);
    }
}

/// Whom a receiver hears and sees if it never declared anything: every member and
/// every remote publisher but itself, the video at the base layer. Remote publishers
/// of audio alone are heard only.
pub proof fn law_default_admits_everyone(receiver: SessionId, room: RoomInputs, s: SessionId)
    ensures
        ({
            let allow = resolved(None, receiver, room);
            &&& allow.video.contains_key(s) <==> s != receiver && (room.members.contains(s)
                || room.remote.video.contains(s))
            &&& allow.audio.contains(s) <==> s != receiver && (room.members.contains(s)
                || room.remote.video.contains(s) || room.remote.audio.contains(s))
            &&& allow.video.contains_key(s) ==> allow.video[s].preferred_spatial == 0
                && allow.video[s].preferred_temporal == 0
        }),
{
}

/// Whom a receiver hears by its declaration: exactly those it sees, or, if it asked
/// for everyone's audio, every member and every remote publisher but itself.
pub proof fn law_declared_audio(
    sub: SubView,
    receiver: SessionId,
    room: RoomInputs,
    s: SessionId,
)
    ensures
        ({
            let allow = resolved(Some(sub), receiver, room);
            &&& !sub.receive_all_audio ==> (allow.audio.contains(s)
                <==> allow.video.contains_key(s))
            &&& sub.receive_all_audio ==> (allow.audio.contains(s) <==> s != receiver && (
            room.members.contains(s) || room.remote.video.contains(s)
                || room.remote.audio.contains(s)))
        }),
{
}

/// An update takes effect in full: a member is pinned if the update pins it or its
/// pin was waiting; a slot is kept if it names a member; the wishes for everyone's
/// audio and video and the bitrate are as declared; and the receiver's next answer
/// is made anew.
pub proof fn law_update_takes_effect(
    store: StoreView,
    receiver: SessionId,
    update: SubscriptionUpdate,
    members: Set<SessionId>,
)
    ensures
        ({
            let after = store.after_update(receiver, update, members);
            let sub = after.subs[receiver];
            &&& after.subs.contains_key(receiver)
            &&& forall|s: SessionId| #[trigger]
                sub.pinned.contains(s) <==> members.contains(s) && (
                update.pinned_sessions@.contains(s) || store.pending_of(receiver).contains(s))
            &&& forall|v: VisibilitySlot| #[trigger]
                sub.slots.contains(v) <==> update.slots@.contains(v) && members.contains(
                    v.session_id,
                )
            &&& (forall|k: int|
                0 <= k < update.slots@.len() ==> members.contains(
                    (#[trigger] update.slots@[k]).session_id,
                )) ==> sub.slots == update.slots@
            &&& sub.max_video_kbps == update.max_video_kbps
            &&& sub.receive_all_audio == update.receive_all_audio
            &&& sub.receive_all_video == update.receive_all_video
            &&& !after.cache.contains_key(receiver)
            &&& after.version(receiver) == store.version(receiver).wrapping_add(1)
        }),
{
    let sub = declared(store.pending_of(receiver), update, members);
    let kept = |s: VisibilitySlot| members.contains(s.session_id);
    let slots = update.slots@;
    let pending = store.pending_of(receiver);
    assert forall|s: SessionId| #[trigger] sub.pinned.contains(s) <==> members.contains(s) && (
    update.pinned_sessions@.contains(s) || pending.contains(s)) by {
        assert(update.pinned_sessions@.to_set().contains(s) <==> update.pinned_sessions@.contains(
            s,
        ));
        assert(pending.to_set().contains(s) <==> pending.contains(s));
    }
    assert forall|v: VisibilitySlot| #[trigger] sub.slots.contains(v) <==> slots.contains(v)
        && members.contains(v.session_id) by {
        if sub.slots.contains(v) {
            let k = choose|k: int| 0 <= k < slots.filter(kept).len() && slots.filter(kept)[k] == v;
            slots.lemma_filter_pred(kept, k);
            slots.lemma_filter_contains_rev(kept, v);
        }
        if slots.contains(v) && members.contains(v.session_id) {
            let k = choose|k: int| 0 <= k < slots.len() && slots[k] == v;
            slots.lemma_filter_contains(kept, k);
        }
    }
    if forall|k: int|
        0 <= k < slots.len() ==> members.contains((#[trigger] slots[k]).session_id) {
        lemma_filter_all(slots, kept);
    }
}

/// Filtering by what holds of everything changes nothing.
proof fn lemma_filter_all(s: Seq<VisibilitySlot>, p: spec_fn(VisibilitySlot) -> bool)
    requires
        forall|k: int| 0 <= k < s.len() ==> p(#[trigger] s[k]),
    ensures
        s.filter(p) == s,
    decreases s.len(),
{
    reveal(Seq::filter);
    if s.len() > 0 {
        let front = s.drop_last();
        assert forall|k: int| 0 <= k < front.len() implies p(#[trigger] front[k]) by {
            assert(front[k] == s[k]);
        }
        lemma_filter_all(front, p);
        assert(p(s[s.len() - 1]));
        assert(front.push(s.last()) =~= s);
    }
}

/// The first slot that names a member stays the first that names it.
pub proof fn law_update_keeps_the_first_slot(
    store: StoreView,
    receiver: SessionId,
    update: SubscriptionUpdate,
    members: Set<SessionId>,
    i: int,
)
    requires
        0 <= i < update.slots@.len(),
        members.contains(update.slots@[i].session_id),
        forall|j: int|
            0 <= j < i ==> (#[trigger] update.slots@[j]).session_id != update.slots@[i].session_id,
    ensures
        ({
            let kept = store.after_update(receiver, update, members).subs[receiver].slots;
            exists|x: int|
                0 <= x < kept.len() && #[trigger] kept[x] == update.slots@[i] && forall|y: int|
                    0 <= y < x ==> (#[trigger] kept[y]).session_id != update.slots@[i].session_id
        }),
{
    let p = |s: VisibilitySlot| members.contains(s.session_id);
    let slots = update.slots@;
    lemma_filter_keeps_first(slots, p, i);
    let kept = store.after_update(receiver, update, members).subs[receiver].slots;
    assert(kept == slots.filter(p));
    let x = choose|x: int|
        0 <= x < slots.filter(p).len() && #[trigger] slots.filter(p)[x] == slots[i] && forall|y: int|
            0 <= y < x ==> (#[trigger] slots.filter(p)[y]).session_id != slots[i].session_id;
    assert(kept[x] == slots[i]);
}

proof fn lemma_filter_keeps_first(
    s: Seq<VisibilitySlot>,
    p: spec_fn(VisibilitySlot) -> bool,
    i: int,
)
    requires
        0 <= i < s.len(),
        p(s[i]),
        forall|j: int| 0 <= j < i ==> (#[trigger] s[j]).session_id != s[i].session_id,
    ensures
        exists|x: int|
            0 <= x < s.filter(p).len() && #[trigger] s.filter(p)[x] == s[i] && forall|y: int|
                0 <= y < x ==> (#[trigger] s.filter(p)[y]).session_id != s[i].session_id,
    decreases s.len(),
{
    reveal(Seq::filter);
    let front = s.drop_last();
    let f = front.filter(p);
    let r = s.filter(p);
    if i < front.len() {
        lemma_filter_keeps_first(front, p, i);
        let x = choose|x: int|
            0 <= x < f.len() && #[trigger] f[x] == front[i] && forall|y: int|
                0 <= y < x ==> (#[trigger] f[y]).session_id != front[i].session_id;
        assert(r[x] == s[i]);
        assert forall|y: int| 0 <= y < x implies (#[trigger] r[y]).session_id
            != s[i].session_id by {
            assert(r[y] == f[y]);
        }
    } else {
        let x = f.len() as int;
        assert(r[x] == s[i]);
        assert forall|y: int| 0 <= y < x implies (#[trigger] r[y]).session_id
            != s[i].session_id by {
            assert(r[y] == f[y]);
            assert(f.contains(f[y]));
            front.lemma_filter_contains_rev(p, f[y]);
            let k = choose|k: int| 0 <= k < front.len() && front[k] == f[y];
            assert(s[k] == f[y]);
        }
    }
}

/// A pin of an absent sender waits, and only such: what waits after an update is
/// absent and was waiting or is pinned now; nothing is dropped while all of it fits
/// under the cap of fifty; and what is among the last fifty, those that waited taken
/// before those of the update, never is.
pub proof fn law_absent_pins_wait(
    store: StoreView,
    receiver: SessionId,
    update: SubscriptionUpdate,
    members: Set<SessionId>,
    s: SessionId,
)
    ensures
        ({
            let waits = store.after_update(receiver, update, members).pending_of(
                receiver,
            ).contains(s);
            let pinned = update.pinned_sessions@;
            let waited = store.pending_of(receiver);
            &&& waits ==> !members.contains(s) && (waited.contains(s) || pinned.contains(s))
            &&& !members.contains(s) && (waited.contains(s) || pinned.contains(s))
                && waited.len() + pinned.len() <= 50 ==> waits
            &&& !members.contains(s) && (exists|i: int|
                0 <= i < pinned.len() && pinned.len() - 50 <= i && #[trigger] pinned[i] == s)
                ==> waits
            &&& !members.contains(s) && (exists|i: int|
                0 <= i < waited.len() && waited.len() + pinned.len() - 50 <= i
                    && #[trigger] waited[i] == s) ==> waits
        }),
{
    let pinned = update.pinned_sessions@;
    let waited = store.pending_of(receiver);
    let absent = |t: SessionId| !members.contains(t);
    let a = waited.filter(absent);
    let b = pinned.filter(absent);
    let all = a + b;
    let w = next_pending(waited, pinned, members);
    let after = store.after_update(receiver, update, members);
    assert(after.pending_of(receiver) =~= w);
    waited.lemma_filter_len(absent);
    pinned.lemma_filter_len(absent);
    if w.contains(s) {
        let k = choose|k: int| 0 <= k < w.len() && w[k] == s;
        let j = if all.len() <= PENDING_CAP {
            k
        } else {
            k + all.len() - PENDING_CAP
        };
        assert(all[j] == s);
        if j < a.len() {
            waited.lemma_filter_pred(absent, j);
            assert(a.contains(a[j]));
            waited.lemma_filter_contains_rev(absent, s);
        } else {
            pinned.lemma_filter_pred(absent, j - a.len());
            assert(b.contains(b[j - a.len()]));
            pinned.lemma_filter_contains_rev(absent, s);
        }
    }
    if !members.contains(s) {
        if waited.contains(s) && waited.len() + pinned.len() <= 50 {
            let k = choose|k: int| 0 <= k < waited.len() && waited[k] == s;
            waited.lemma_filter_contains(absent, k);
            let j = choose|j: int| 0 <= j < a.len() && a[j] == s;
            assert(w[j] == s);
        }
        if pinned.contains(s) && waited.len() + pinned.len() <= 50 {
            let k = choose|k: int| 0 <= k < pinned.len() && pinned[k] == s;
            pinned.lemma_filter_contains(absent, k);
            let j = choose|j: int| 0 <= j < b.len() && b[j] == s;
            assert(all[a.len() + j] == s);
            assert(w[a.len() + j] == s);
        }
        if exists|i: int|
            0 <= i < pinned.len() && pinned.len() - 50 <= i && #[trigger] pinned[i] == s {
            let i = choose|i: int|
                0 <= i < pinned.len() && pinned.len() - 50 <= i && #[trigger] pinned[i] == s;
            lemma_filter_from_end(pinned, absent, i);
            let j = choose|j: int|
                0 <= j < b.len() && #[trigger] b[j] == s && b.len() - j <= pinned.len() - i;
            assert(all[a.len() + j] == s);
            if all.len() <= 50 {
                assert(w[a.len() + j] == s);
            } else {
                let k = a.len() + j - (all.len() - 50);
                assert(w[k] == s);
            }
        }
        if exists|i: int|
            0 <= i < waited.len() && waited.len() + pinned.len() - 50 <= i && #[trigger] waited[i]
                == s {
            let i = choose|i: int|
                0 <= i < waited.len() && waited.len() + pinned.len() - 50 <= i
                    && #[trigger] waited[i] == s;
            lemma_filter_from_end(waited, absent, i);
            let j = choose|j: int|
                0 <= j < a.len() && #[trigger] a[j] == s && a.len() - j <= waited.len() - i;
            assert(all[j] == s);
            if all.len() <= 50 {
                assert(w[j] == s);
            } else {
                let k = j - (all.len() - 50);
                assert(w[k] == s);
            }
        }
    }
}

/// Filtering moves no element that stays away from the end.
proof fn lemma_filter_from_end(s: Seq<SessionId>, p: spec_fn(SessionId) -> bool, i: int)
    requires
        0 <= i < s.len(),
        p(s[i]),
    ensures
        exists|j: int|
            0 <= j < s.filter(p).len() && #[trigger] s.filter(p)[j] == s[i] && s.filter(p).len() - j
                <= s.len() - i,
    decreases s.len(),
{
    reveal(Seq::filter);
    let front = s.drop_last();
    let f = front.filter(p);
    let r = s.filter(p);
    if i < front.len() {
        lemma_filter_from_end(front, p, i);
        let j = choose|j: int|
            0 <= j < f.len() && #[trigger] f[j] == front[i] && f.len() - j <= front.len() - i;
        assert(r[j] == s[i]);
    } else {
        assert(r[f.len() as int] == s[i]);
    }
}

/// Answering and rewarming leave every declaration and every waiting pin as it was,
/// and what is answered is what is kept for the receiver, and for no one else.
pub proof fn law_answering_changes_no_declaration(
    store: StoreView,
    receiver: SessionId,
    other: SessionId,
    room: RoomInputs,
    members_generation: u64,
    speakers_generation: u64,
)
    requires
        other != receiver,
    ensures
        ({
            let after = store.after_resolve(
                receiver,
                room,
                members_generation,
                speakers_generation,
            );
            let warm = store.after_rewarm(room, members_generation, speakers_generation);
            let answer = store.answer(receiver, room, members_generation, speakers_generation);
            &&& after.subs == store.subs && warm.subs == store.subs
            &&& after.pending == store.pending && warm.pending == store.pending
            &&& after.versions == store.versions && warm.versions == store.versions
            &&& after.cache.contains_key(receiver) && after.cache[receiver] == answer
            &&& after.cache.contains_key(other) == store.cache.contains_key(other)
            &&& store.cache.contains_key(other) ==> after.cache[other] == store.cache[other]
            &&& answer.members_generation == members_generation
            &&& answer.speakers_generation == speakers_generation
            &&& answer.sub_version == store.version(receiver)
        }),
{
}

/// An answer is made anew whenever there is none, or the receiver declared anew, or the
/// members or the speakers changed since; otherwise the one that is kept stands.
pub proof fn law_answer_is_kept_while_nothing_moves(
    store: StoreView,
    receiver: SessionId,
    room: RoomInputs,
    members_generation: u64,
    speakers_generation: u64,
)
    ensures
        ({
            let answer = store.answer(receiver, room, members_generation, speakers_generation);
            let kept = store.cache[receiver];
            let stands = store.cache.contains_key(receiver) && kept.sub_version == store.version(
                receiver,
            ) && kept.members_generation == members_generation && kept.speakers_generation
                == speakers_generation;
            &&& stands ==> answer == kept
            &&& !stands ==> answer.allow == resolved(store.sub(receiver), receiver, room)
        }),
{
}

/// Forgetting one receiver leaves every other receiver as it was.
pub proof fn law_forget_is_local(store: StoreView, receiver: SessionId, other: SessionId)
    requires
        other != receiver,
    ensures
        ({
            let after = store.after_forget(receiver);
            &&& after.sub(other) == store.sub(other)
            &&& after.pending_of(other) == store.pending_of(other)
            &&& after.version(other) == store.version(other)
            &&& after.cache.contains_key(other) == store.cache.contains_key(other)
            &&& store.cache.contains_key(other) ==> after.cache[other] == store.cache[other]
            &&& !after.cache.contains_key(receiver)
            &&& after.version(receiver) == 0
        }),
{
}

/// A receiver wants everyone's audio and video until it declares otherwise, then what
/// it last declared, and everyone's again once it is forgotten.
pub proof fn law_mode_follows_declaration(
    store: StoreView,
    receiver: SessionId,
    update: SubscriptionUpdate,
    members: Set<SessionId>,
)
    ensures
        !store.subs.contains_key(receiver) ==> store.mode(receiver) == (true, true),
        store.after_update(receiver, update, members).mode(receiver) == (
            update.receive_all_audio,
            update.receive_all_video,
        ),
        store.after_forget(receiver).mode(receiver) == (true, true),
{
}

} // verus!
