//! The decision, per packet and receiver, whether to forward.
use std::collections::{HashMap, VecDeque};
use std::sync::Arc;

use crate::ids::SessionId;
use crate::layer_map::StreamKey;
use crate::layer_selector::{LayerSelection, LayerSelector};
use crate::packet::{MediaPacket, MediaType, PacketType, PacketWrapper, RoutingHeader};
use crate::room_state::{age, RoomState};
use crate::speaker::ActiveSpeakerSet;
use crate::subscription::{AllowSet, LayerPref, SubscriptionStore, MAX_VISIBLE_VIDEO};

use vstd::prelude::*;

verus! {

broadcast use vstd::std_specs::hash::group_hash_axioms;

/// Maximum number of base-layer pictures remembered per receiver and sender.
pub const RECENT_T0_CAPACITY: usize = 64;

/// Age past which a base-layer picture no longer serves as a reference: 5 s.
pub const RECENT_T0_TTL: u64 = 5_000_000_000;

/// Name of a packet's kind in metrics.
pub open spec fn packet_label(t: PacketType) -> Seq<char> {
    match t {
        PacketType::Unknown => "unknown"@,
        PacketType::RsaPubKey => "rsa_pub_key"@,
        PacketType::AesKey => "aes_key"@,
        PacketType::Media => "media"@,
        PacketType::Connection => "connection"@,
        PacketType::Diagnostics => "diagnostics"@,
        PacketType::Health => "health"@,
        PacketType::Meeting => "meeting"@,
        PacketType::SessionAssigned => "session_assigned"@,
        PacketType::Congestion => "congestion"@,
        PacketType::SubscriptionUpdate => "subscription_update"@,
        PacketType::SpeakerUpdate => "speaker_update"@,
        PacketType::LayerHint => "layer_hint"@,
        PacketType::AdmissionDecision => "admission_decision"@,
        PacketType::CapabilityAnnounce => "capability_announce"@,
        PacketType::HealthBeacon => "health_beacon"@,
    }
}

/// Name of a packet's kind in metrics.
pub fn packet_type_label(packet_wrapper: &PacketWrapper) -> (r: &'static str)
    ensures
        r@ == packet_label(packet_wrapper.packet_type),
{
    match packet_wrapper.packet_type {
        PacketType::Unknown => "unknown",
        PacketType::RsaPubKey => "rsa_pub_key",
        PacketType::AesKey => "aes_key",
        PacketType::Media => "media",
        PacketType::Connection => "connection",
        PacketType::Diagnostics => "diagnostics",
        PacketType::Health => "health",
        PacketType::Meeting => "meeting",
        PacketType::SessionAssigned => "session_assigned",
        PacketType::Congestion => "congestion",
        PacketType::SubscriptionUpdate => "subscription_update",
        PacketType::SpeakerUpdate => "speaker_update",
        PacketType::LayerHint => "layer_hint",
        PacketType::AdmissionDecision => "admission_decision",
        PacketType::CapabilityAnnounce => "capability_announce",
        PacketType::HealthBeacon => "health_beacon",
    }
}

/// The base-layer pictures of one sender that were forwarded to one receiver of
/// late, each with the time, oldest first.
#[derive(Debug)]
pub struct RecentT0Set {
    pub entries: VecDeque<(u64, u64)>,
}

impl View for RecentT0Set {
    type V = Seq<(u64, u64)>;

    open spec fn view(&self) -> Seq<(u64, u64)> {
        self.entries@
    }
}

/// `s` without its leading pictures that are too old.
pub open spec fn without_stale_front(s: Seq<(u64, u64)>, now: u64) -> Seq<(u64, u64)>
    decreases s.len(),
{
    if s.len() > 0 && age(now, s[0].1) > RECENT_T0_TTL {
        without_stale_front(s.drop_first(), now)
    } else {
        s
    }
}

/// The last [`RECENT_T0_CAPACITY`] pictures of `s`.
pub open spec fn latest(s: Seq<(u64, u64)>) -> Seq<(u64, u64)> {
    if s.len() <= RECENT_T0_CAPACITY {
        s
    } else {
        s.skip(s.len() - RECENT_T0_CAPACITY)
    }
}

/// The remembered pictures after one more was forwarded.
pub open spec fn with_picture(s: Seq<(u64, u64)>, picture_id: u64, now: u64) -> Seq<(u64, u64)> {
    latest(without_stale_front(s, now).push((picture_id, now)))
}

/// Whether a picture is remembered and recent enough.
pub open spec fn has_picture(s: Seq<(u64, u64)>, picture_id: u64, now: u64) -> bool {
    exists|i: int|
        0 <= i < s.len() && (#[trigger] s[i]).0 == picture_id && age(now, s[i].1)
            <= RECENT_T0_TTL
}

impl RecentT0Set {
    /// No picture yet.
    pub fn new() -> (r: Self)
        ensures
            r@ == Seq::<(u64, u64)>::empty(),
    {
        RecentT0Set { entries: VecDeque::new() }
    }

    /// Remembers a picture. Leading pictures that are too old are dropped, and
    /// beyond the capacity the oldest ones.
    pub fn insert(&mut self, picture_id: u64, now: u64)
        ensures
            final(self)@ == with_picture(old(self)@, picture_id, now),
    {
        let ghost before = self@;
        while self.entries.len() > 0 && now.saturating_sub(self.entries[0].1) > RECENT_T0_TTL
            invariant
                without_stale_front(before, now) == without_stale_front(self@, now),
            ensures
                self@ == without_stale_front(before, now),
            decreases self.entries@.len(),
        {
            proof {
                assert(self@.drop_first() =~= self@.subrange(1, self@.len() as int));
            }
            self.entries.pop_front();
        }
        self.entries.push_back((picture_id, now));
        let ghost all = self@;
        proof {
            assert(all.skip(0) =~= all);
        }
        while self.entries.len() > RECENT_T0_CAPACITY
            invariant
                self@.len() <= all.len(),
                self@ == all.skip(all.len() - self@.len()),
                all.len() > RECENT_T0_CAPACITY ==> self@.len() >= RECENT_T0_CAPACITY,
                all.len() <= RECENT_T0_CAPACITY ==> self@ == all,
            decreases self.entries@.len(),
        {
            let ghost prev = self@;
            self.entries.pop_front();
            proof {
                assert(self@ =~= all.skip(all.len() - self@.len()));
            }
        }
    }

    /// Whether a picture is remembered and recent enough.
    pub fn contains(&self, picture_id: u64, now: u64) -> (r: bool)
        ensures
            r == has_picture(self@, picture_id, now),
    {
        let mut i: usize = 0;
        while i < self.entries.len()
            invariant
                i <= self@.len(),
                forall|k: int|
                    0 <= k < i ==> !((#[trigger] self@[k]).0 == picture_id && age(now, self@[k].1)
                        <= RECENT_T0_TTL),
            decreases self@.len() - i,
        {
            let (pid, t) = self.entries[i];
            if pid == picture_id && now.saturating_sub(t) <= RECENT_T0_TTL {
                proof {
                    assert(self@[i as int].0 == picture_id);
                }
                return true;
            }
            i = i + 1;
        }
        false
    }
}

impl Default for RecentT0Set {
    fn default() -> (r: Self)
        ensures
            r@ == Seq::<(u64, u64)>::empty(),
    {
        RecentT0Set::new()
    }
}

/// What becomes of a packet for one receiver.
#[derive(Debug, Clone, Copy, PartialEq, Eq, Structural)]
pub enum ForwardDecision {
    /// Send it on.
    Forward,
    /// Keep it from this receiver.
    Drop,
}

/// Why a packet is dropped.
#[derive(Debug, Clone, Copy, PartialEq, Eq, Structural)]
pub enum DropReason {
    /// The receiver sent it.
    SelfSkip,
    /// The receiver does not want the sender's media.
    Unsubscribed,
    /// The receiver's downlink has no room for the layer.
    LayerBudget,
    /// The picture that it is decoded against was not forwarded.
    ReferenceMiss,
}

impl DropReason {
    /// Name of the reason in metrics.
    pub open spec fn label_spec(self) -> Seq<char> {
        match self {
            DropReason::SelfSkip => "self_skip"@,
            DropReason::Unsubscribed => "unsubscribed"@,
            DropReason::LayerBudget => "layer_budget"@,
            DropReason::ReferenceMiss => "reference_miss"@,
        }
    }

    /// Name of the reason in metrics.
    pub fn label(self) -> (r: &'static str)
        ensures
            r@ == self.label_spec(),
    {
        match self {
            DropReason::SelfSkip => "self_skip",
            DropReason::Unsubscribed => "unsubscribed",
            DropReason::LayerBudget => "layer_budget",
            DropReason::ReferenceMiss => "reference_miss",
        }
    }
}

/// A decision with what metrics report of it.
#[derive(Debug, Clone, Copy, PartialEq, Eq, Structural)]
pub enum Verdict {
    /// Forward.
    Forward,
    /// Forward; it is a video keyframe of the base layer.
    ForwardKeyframe,
    /// Drop, for a reason.
    Drop(DropReason),
}

impl Verdict {
    /// The bare decision.
    pub open spec fn decision_spec(self) -> ForwardDecision {
        if self is Drop {
            ForwardDecision::Drop
        } else {
            ForwardDecision::Forward
        }
    }

    /// The bare decision.
    pub fn decision(self) -> (r: ForwardDecision)
        ensures
            r == self.decision_spec(),
    {
        match self {
            Verdict::Forward => ForwardDecision::Forward,
            Verdict::ForwardKeyframe => ForwardDecision::Forward,
            Verdict::Drop(_) => ForwardDecision::Drop,
        }
    }
}

/// Key of a receiver and a sender.
pub open spec fn pair_key(receiver: SessionId, sender: SessionId) -> u128 {
    (receiver * 0x1_0000_0000_0000_0000 + sender) as u128
}

/// The receiver of a key.
pub open spec fn key_receiver(key: u128) -> SessionId {
    (key / 0x1_0000_0000_0000_0000) as SessionId
}

/// The sender of a key.
pub open spec fn key_sender(key: u128) -> SessionId {
    (key % 0x1_0000_0000_0000_0000) as SessionId
}

/// A key tells its receiver and sender.
pub proof fn lemma_pair_key(receiver: SessionId, sender: SessionId)
    ensures
        key_receiver(pair_key(receiver, sender)) == receiver,
        key_sender(pair_key(receiver, sender)) == sender,
        pair_key(receiver, sender) == receiver * 0x1_0000_0000_0000_0000 + sender,
{
}

/// Key of a receiver and a sender.
fn make_pair_key(receiver: SessionId, sender: SessionId) -> (key: u128)
    ensures
        key == pair_key(receiver, sender),
{
    receiver as u128 * 0x1_0000_0000_0000_0000 + sender as u128
}

/// Decides for every receiver of one room.
pub struct Forwarder {
    pub room: RoomState,
    pub subscriptions: SubscriptionStore,
    pub speakers: ActiveSpeakerSet,
    pub layer_selector: LayerSelector,
    /// Base-layer pictures forwarded of late, by receiver and sender.
    pub recent_t0: HashMap<u128, RecentT0Set>,
}

/// Mathematical view of a [`Forwarder`].
#[verifier::ext_equal]
pub struct ForwarderView {
    pub room: crate::room_state::RoomView,
    pub store: crate::subscription::StoreView,
    pub speakers: crate::speaker::SpeakersView,
    pub selector: crate::layer_selector::SelectorView,
    pub recent: Map<u128, Seq<(u64, u64)>>,
}

impl View for Forwarder {
    type V = ForwarderView;

    open spec fn view(&self) -> ForwarderView {
        ForwarderView {
            room: self.room@,
            store: self.subscriptions@,
            speakers: self.speakers@,
            selector: self.layer_selector@,
            recent: self.recent_t0@.map_values(|s: RecentT0Set| s@),
        }
    }
}

/// How a sender's media is admitted to a receiver.
#[derive(Debug, Clone, Copy, PartialEq, Eq, Structural)]
pub enum Admission {
    /// Not at all.
    Refused,
    /// By the allow set, or as audio of everyone.
    Allowed,
    /// As video of a sender outside the allow set, because the receiver wants
    /// everyone and has places left.
    Guest,
}

/// Whether a choice of layers leaves out this layer of a stream.
pub open spec fn beyond(selection: Map<StreamKey, u32>, stream: StreamKey, temporal: u32) -> bool {
    !selection.contains_key(stream) || temporal > selection[stream]
}

impl ForwarderView {
    /// What subscriptions are resolved against.
    pub open spec fn inputs(self) -> crate::subscription::RoomInputs {
        crate::subscription::room_inputs(
            self.room.members_snapshot,
            self.speakers.top,
            self.room.remotes,
        )
    }

    /// The allow set that answers `receiver`.
    pub open spec fn allow(self, receiver: SessionId) -> crate::subscription::AllowView {
        self.store.answer(
            receiver,
            self.inputs(),
            self.room.generation,
            self.speakers.generation,
        ).allow
    }

    /// Whether `receiver` wants the audio of everyone.
    pub open spec fn wants_all_audio(self, receiver: SessionId) -> bool {
        self.store.sub(receiver) matches Some(sub) ==> sub.receive_all_audio
    }

    /// Whether `receiver` wants the video of everyone.
    pub open spec fn wants_all_video(self, receiver: SessionId) -> bool {
        self.store.sub(receiver) matches Some(sub) ==> sub.receive_all_video
    }

    /// The downlink that `receiver` last reported, if it did.
    pub open spec fn downlink(self, receiver: SessionId) -> Option<u32> {
        if self.room.members.contains_key(receiver) {
            match self.room.members[receiver].bandwidth_estimate {
                Some(e) => Some(e.estimated_downlink_kbps),
                None => None,
            }
        } else {
            None
        }
    }

    /// How `sender`'s media is admitted to `receiver`.
    pub open spec fn admission(
        self,
        receiver: SessionId,
        sender: SessionId,
        media_type: MediaType,
    ) -> Admission {
        let allow = self.allow(receiver);
        if media_type == MediaType::Audio {
            if allow.audio.contains(sender) || self.wants_all_audio(receiver) {
                Admission::Allowed
            } else {
                Admission::Refused
            }
        } else if allow.video.contains_key(sender) {
            Admission::Allowed
        } else if self.wants_all_video(receiver) && allow.video.dom().len() < MAX_VISIBLE_VIDEO {
            Admission::Guest
        } else {
            Admission::Refused
        }
    }

    /// The state after `receiver`'s allow set was looked up.
    pub open spec fn after_lookup(self, receiver: SessionId) -> ForwarderView {
        ForwarderView {
            store: self.store.after_resolve(
                receiver,
                self.inputs(),
                self.room.generation,
                self.speakers.generation,
            ),
            ..self
        }
    }

    /// Whether the choice of layers kept for `receiver` was made for the present
    /// speakers and this downlink.
    pub open spec fn choice_is_current(self, receiver: SessionId, kbps: u32) -> bool {
        self.selector.selections.contains_key(receiver)
            && self.selector.selections[receiver].generation == self.speakers.generation
            && self.selector.selections[receiver].bandwidth_kbps == kbps
    }

    /// The choice of layers for `receiver`: the one that is kept, if it is current,
    /// and otherwise a new one.
    pub open spec fn choice(
        self,
        receiver: SessionId,
        video: Map<SessionId, LayerPref>,
        kbps: u32,
        now: u64,
    ) -> Map<StreamKey, u32> {
        if self.choice_is_current(receiver, kbps) {
            self.selector.selections[receiver].selection
        } else {
            self.selector.next_state(receiver, video, self.speakers.top, kbps, now).last
        }
    }

    /// Whether a layer of an allowed stream does not fit `receiver`'s downlink.
    /// Without a reported downlink everything fits.
    pub open spec fn over_budget(
        self,
        receiver: SessionId,
        sender: SessionId,
        header: RoutingHeader,
        video: Map<SessionId, LayerPref>,
        now: u64,
    ) -> bool {
        match self.downlink(receiver) {
            None => false,
            Some(kbps) => beyond(
                self.choice(receiver, video, kbps, now),
                (sender, header.spatial_layer_id),
                header.temporal_layer_id,
            ),
        }
    }

    /// The state after an allowed stream was weighed: a choice that was not current
    /// was made anew.
    pub open spec fn after_weighing(
        self,
        receiver: SessionId,
        video: Map<SessionId, LayerPref>,
        now: u64,
    ) -> ForwarderView {
        match self.downlink(receiver) {
            None => self,
            Some(kbps) => if self.choice_is_current(receiver, kbps) {
                self
            } else {
                ForwarderView {
                    selector: self.selector.after_recompute(
                        receiver,
                        video,
                        self.speakers.top,
                        kbps,
                        self.speakers.generation,
                        now,
                    ),
                    ..self
                }
            },
        }
    }

    /// Whether a guest's layer does not fit `receiver`'s downlink, were the guest
    /// allowed. Nothing of the choice is kept.
    pub open spec fn guest_over_budget(
        self,
        receiver: SessionId,
        sender: SessionId,
        header: RoutingHeader,
        video: Map<SessionId, LayerPref>,
    ) -> bool {
        match self.downlink(receiver) {
            None => false,
            Some(kbps) => beyond(
                self.selector.pick(
                    receiver,
                    video.insert(sender, crate::subscription::base_pref()),
                    self.speakers.top,
                    kbps,
                ),
                (sender, header.spatial_layer_id),
                header.temporal_layer_id,
            ),
        }
    }

    /// The base-layer pictures of `sender` that `receiver` got of late.
    pub open spec fn pictures(self, receiver: SessionId, sender: SessionId) -> Seq<(u64, u64)> {
        if self.recent.contains_key(pair_key(receiver, sender)) {
            self.recent[pair_key(receiver, sender)]
        } else {
            Seq::empty()
        }
    }

    /// What becomes of a frame that fits, by its references.
    pub open spec fn by_reference(
        self,
        receiver: SessionId,
        sender: SessionId,
        header: RoutingHeader,
        now: u64,
    ) -> (Verdict, ForwarderView) {
        if header.is_keyframe {
            (
                if header.is_base_keyframe() {
                    Verdict::ForwardKeyframe
                } else {
                    Verdict::Forward
                },
                self,
            )
        } else if header.temporal_layer_id == 0 {
            (
                Verdict::Forward,
                ForwarderView {
                    recent: self.recent.insert(
                        pair_key(receiver, sender),
                        with_picture(self.pictures(receiver, sender), header.picture_id, now),
                    ),
                    ..self
                },
            )
        } else if header.references_t0 && !has_picture(
            self.pictures(receiver, sender),
            header.picture_id,
            now,
        ) {
            (Verdict::Drop(DropReason::ReferenceMiss), self)
        } else {
            (Verdict::Forward, self)
        }
    }

    /// What becomes of an admitted frame with a routing header.
    pub open spec fn by_layer(
        self,
        receiver: SessionId,
        sender: SessionId,
        header: RoutingHeader,
        video: Map<SessionId, LayerPref>,
        guest: bool,
        now: u64,
    ) -> (Verdict, ForwarderView) {
        if header.is_base_keyframe() {
            self.by_reference(receiver, sender, header, now)
        } else if guest {
            if self.guest_over_budget(receiver, sender, header, video) {
                (Verdict::Drop(DropReason::LayerBudget), self)
            } else {
                self.by_reference(receiver, sender, header, now)
            }
        } else {
            let weighed = self.after_weighing(receiver, video, now);
            if self.over_budget(receiver, sender, header, video, now) {
                (Verdict::Drop(DropReason::LayerBudget), weighed)
            } else {
                weighed.by_reference(receiver, sender, header, now)
            }
        }
    }

    /// What becomes of audio, video or screen media of `sender`.
    pub open spec fn by_subscription(
        self,
        receiver: SessionId,
        sender: SessionId,
        media: MediaPacket,
        now: u64,
    ) -> (Verdict, ForwarderView) {
        let looked = self.after_lookup(receiver);
        let admission = self.admission(receiver, sender, media.media_type);
        if admission == Admission::Refused {
            (Verdict::Drop(DropReason::Unsubscribed), looked)
        } else if media.media_type == MediaType::Audio {
            (Verdict::Forward, looked)
        } else {
            match media.routing_header {
                None => (Verdict::Forward, looked),
                Some(header) => looked.by_layer(
                    receiver,
                    sender,
                    header,
                    self.allow(receiver).video,
                    admission == Admission::Guest,
                    now,
                ),
            }
        }
    }

    /// What becomes of a packet for `receiver`, and the state after the decision.
    pub open spec fn judged(
        self,
        receiver: SessionId,
        packet: PacketWrapper,
        media: Option<MediaPacket>,
        now: u64,
    ) -> (Verdict, ForwarderView) {
        if packet.session_id == receiver {
            (Verdict::Drop(DropReason::SelfSkip), self)
        } else if packet.packet_type == PacketType::Media && media is Some && is_filtered(
            media->0.media_type,
        ) {
            self.by_subscription(receiver, packet.session_id, media->0, now)
        } else {
            (Verdict::Forward, self)
        }
    }

    /// The state after everything about `sid` was dropped.
    pub open spec fn after_prune(self, sid: SessionId) -> ForwarderView {
        ForwarderView {
            selector: self.selector.after_prune(sid),
            recent: Map::new(
                |k: u128|
                    self.recent.contains_key(k) && key_receiver(k) != sid && key_sender(k) != sid,
                |k: u128| self.recent[k],
            ),
            ..self
        }
    }
}

/// Media that subscriptions filter.
pub open spec fn is_filtered(t: MediaType) -> bool {
    t == MediaType::Audio || t == MediaType::Video || t == MediaType::Screen
}

impl Forwarder {
    /// Room and selector are in order.
    pub open spec fn wf(&self) -> bool {
        self.room@.wf() && self.layer_selector.wf()
    }

    /// A forwarder over the given state of a room.
    pub fn new(
        room: RoomState,
        subscriptions: SubscriptionStore,
        speakers: ActiveSpeakerSet,
        layer_selector: LayerSelector,
    ) -> (r: Self)
        requires
            room@.wf(),
            layer_selector.wf(),
        ensures
            r.wf(),
            r@ == (ForwarderView {
                room: room@,
                store: subscriptions@,
                speakers: speakers@,
                selector: layer_selector@,
                recent: Map::empty(),
            }),
    {
        let r = Forwarder {
            room,
            subscriptions,
            speakers,
            layer_selector,
            recent_t0: HashMap::new(),
        };
        proof {
            assert(r@.recent =~= Map::empty());
        }
        r
    }

    /// A forwarder over a room without subscriptions or speakers.
    pub fn with_room_only(room: RoomState, now: u64) -> (r: Self)
        requires
            room@.wf(),
        ensures
            r.wf(),
            r@ == (ForwarderView {
                room: room@,
                store: (crate::subscription::StoreView {
                    subs: Map::empty(),
                    pending: Map::empty(),
                    versions: Map::empty(),
                    cache: Map::empty(),
                }),
                speakers: (crate::speaker::SpeakersView {
                    top: Seq::empty(),
                    generation: 0,
                    last_change: now,
                }),
                selector: (crate::layer_selector::SelectorView {
                    cap: crate::layer_selector::DEFAULT_MAX_VIDEO_KBPS,
                    headroom: (crate::float32::Float32 {
                        bits: crate::layer_selector::DEFAULT_BANDWIDTH_HEADROOM_PCT,
                    }),
                    states: Map::empty(),
                    selections: Map::empty(),
                }),
                recent: Map::empty(),
            }),
    {
        Forwarder::new(
            room,
            SubscriptionStore::new(),
            ActiveSpeakerSet::empty(now),
            LayerSelector::new(),
        )
    }

    /// The selector of this room's layers.
    pub fn layer_selector(&self) -> (r: &LayerSelector)
        ensures
            *r == self.layer_selector,
    {
        &self.layer_selector
    }

    /// The downlink that `receiver` last reported.
    fn downlink_of(&self, receiver: SessionId) -> (r: Option<u32>)
        ensures
            r == self@.downlink(receiver),
    {
        match self.room.members.get(&receiver) {
            Some(m) => match m.bandwidth_estimate {
                Some(e) => Some(e.estimated_downlink_kbps),
                None => None,
            },
            None => None,
        }
    }

    /// Whether a layer of an allowed stream does not fit `receiver_sid`'s downlink.
    fn should_drop_for_layer_budget(
        &mut self,
        receiver_sid: SessionId,
        sender_sid: SessionId,
        header: RoutingHeader,
        allow_set: &AllowSet,
        now: u64,
    ) -> (r: bool)
        requires
            old(self).wf(),
        ensures
            final(self).wf(),
            r == old(self)@.over_budget(
                receiver_sid,
                sender_sid,
                header,
                allow_set@.video,
                now,
            ),
            final(self)@ == old(self)@.after_weighing(receiver_sid, allow_set@.video, now),
    {
        let ghost before = self@;
        let kbps: u32 = match self.downlink_of(receiver_sid) {
            Some(kbps) => kbps,
            None => {
                return false;
            },
        };
        let stream: StreamKey = (sender_sid, header.spatial_layer_id);
        let generation: u64 = self.speakers.generation;
        match self.layer_selector.last_selection_for(receiver_sid) {
            Some(cached) => {
                if cached.generation == generation && cached.bandwidth_kbps == kbps {
                    return layer_is_beyond(&cached.selection, stream, header.temporal_layer_id);
                }
            },
            None => {},
        }
        self.layer_selector.recompute_for_receiver(
            receiver_sid,
            allow_set,
            self.speakers.top.as_slice(),
            kbps,
            generation,
            now,
        );
        proof {
            assert(self@.recent =~= before.recent);
        }
        match self.layer_selector.last_selection_for(receiver_sid) {
            Some(cached) => layer_is_beyond(&cached.selection, stream, header.temporal_layer_id),
            None => true,
        }
    }

    /// Whether a guest's layer does not fit `receiver_sid`'s downlink.
    fn should_drop_non_member_for_layer_budget(
        &self,
        receiver_sid: SessionId,
        sender_sid: SessionId,
        header: RoutingHeader,
        allow_set: &AllowSet,
    ) -> (r: bool)
        ensures
            r == self@.guest_over_budget(receiver_sid, sender_sid, header, allow_set@.video),
    {
        let kbps: u32 = match self.downlink_of(receiver_sid) {
            Some(kbps) => kbps,
            None => {
                return false;
            },
        };
        let mut augmented = AllowSet::new();
        augmented.video = allow_set.video.clone();
        augmented.video.insert(sender_sid, LayerPref::default());
        let selection = self.layer_selector.pick_layers(
            receiver_sid,
            &augmented,
            self.speakers.top.as_slice(),
            kbps,
        );
        layer_is_beyond(
            &selection,
            (sender_sid, header.spatial_layer_id),
            header.temporal_layer_id,
        )
    }

    /// Judges a frame that fits by its references.
    fn judge_by_reference(
        &mut self,
        receiver_sid: SessionId,
        sender_sid: SessionId,
        header: RoutingHeader,
        now: u64,
    ) -> (r: Verdict)
        ensures
            old(self).wf() ==> final(self).wf(),
            (r, final(self)@) == old(self)@.by_reference(receiver_sid, sender_sid, header, now),
    {
        let ghost before = self@;
        if header.is_keyframe {
            return if header.is_base_keyframe() {
                Verdict::ForwardKeyframe
            } else {
                Verdict::Forward
            };
        }
        let key: u128 = make_pair_key(receiver_sid, sender_sid);
        if header.temporal_layer_id == 0 {
            let mut recent: RecentT0Set = match self.recent_t0.remove(&key) {
                Some(s) => s,
                None => RecentT0Set::new(),
            };
            proof {
                assert(recent@ == before.pictures(receiver_sid, sender_sid));
            }
            recent.insert(header.picture_id, now);
            self.recent_t0.insert(key, recent);
            proof {
                assert(self@.recent =~= before.recent.insert(key, recent@));
            }
            Verdict::Forward
        } else if header.references_t0 {
            let seen: bool = match self.recent_t0.get(&key) {
                Some(s) => s.contains(header.picture_id, now),
                None => false,
            };
            if seen {
                Verdict::Forward
            } else {
                Verdict::Drop(DropReason::ReferenceMiss)
            }
        } else {
            Verdict::Forward
        }
    }

    /// Judges an admitted frame with a routing header.
    fn judge_by_layer(
        &mut self,
        receiver_sid: SessionId,
        sender_sid: SessionId,
        header: RoutingHeader,
        allow_set: &AllowSet,
        guest: bool,
        now: u64,
    ) -> (r: Verdict)
        requires
            old(self).wf(),
        ensures
            final(self).wf(),
            (r, final(self)@) == old(self)@.by_layer(
                receiver_sid,
                sender_sid,
                header,
                allow_set@.video,
                guest,
                now,
            ),
    {
        if !header.is_base_keyframe() {
            let drop: bool = if guest {
                self.should_drop_non_member_for_layer_budget(
                    receiver_sid,
                    sender_sid,
                    header,
                    allow_set,
                )
            } else {
                self.should_drop_for_layer_budget(
                    receiver_sid,
                    sender_sid,
                    header,
                    allow_set,
                    now,
                )
            };
            if drop {
                return Verdict::Drop(DropReason::LayerBudget);
            }
        }
        self.judge_by_reference(receiver_sid, sender_sid, header, now)
    }

    /// Judges audio, video or screen media.
    fn judge_by_subscription(
        &mut self,
        receiver_sid: SessionId,
        sender_sid: SessionId,
        media: &MediaPacket,
        now: u64,
    ) -> (r: Verdict)
        requires
            old(self).wf(),
        ensures
            final(self).wf(),
            (r, final(self)@) == old(self)@.by_subscription(
                receiver_sid,
                sender_sid,
                *media,
                now,
            ),
    {
        let ghost before = self@;
        let (members, generation) = self.room.members_snapshot_with_generation();
        let (remotes, _) = self.room.remote_publishers_snapshot_with_generation();
        let allow: Arc<AllowSet> = self.subscriptions.resolve_cached(
            receiver_sid,
            &members,
            generation,
            self.speakers.top.as_slice(),
            self.speakers.generation,
            &remotes,
        );
        proof {
            assert(self@.recent =~= before.recent);
            assert(self@ == before.after_lookup(receiver_sid));
        }
        let (all_audio, all_video) = self.subscriptions.receive_mode(receiver_sid);
        if media.media_type == MediaType::Audio {
            return if allow.audio.contains(&sender_sid) || all_audio {
                Verdict::Forward
            } else {
                Verdict::Drop(DropReason::Unsubscribed)
            };
        }
        let member: bool = allow.video.contains_key(&sender_sid);
        let guest: bool = !member && all_video && allow.video.len() < MAX_VISIBLE_VIDEO as usize;
        if !member && !guest {
            return Verdict::Drop(DropReason::Unsubscribed);
        }
        match media.routing_header {
            None => Verdict::Forward,
            Some(header) => self.judge_by_layer(
                receiver_sid,
                sender_sid,
                header,
                &allow,
                guest,
                now,
            ),
        }
    }

    /// Decides what becomes of a packet for one receiver, and why.
    ///
    /// The receiver's own packets are dropped. Audio, video and screen media pass
    /// only as the receiver's subscription admits them. Of video with a routing
    /// header, a keyframe of the base layer always passes; other layers pass as
    /// far as the receiver's downlink has room, and frames that are decoded
    /// against a base-layer picture only if that picture was forwarded of late.
    /// Everything else passes.
    pub fn judge(
        &mut self,
        receiver_sid: SessionId,
        packet_wrapper: &PacketWrapper,
        media_packet: Option<&MediaPacket>,
        now: u64,
    ) -> (r: Verdict)
        requires
            old(self).wf(),
        ensures
            final(self).wf(),
            (r, final(self)@) == old(self)@.judged(
                receiver_sid,
                *packet_wrapper,
                match media_packet {
                    Some(m) => Some(*m),
                    None => None,
                },
                now,
            ),
    {
        if packet_wrapper.session_id == receiver_sid {
            return Verdict::Drop(DropReason::SelfSkip);
        }
        if packet_wrapper.packet_type == PacketType::Media {
            match media_packet {
                Some(media) => {
                    let filtered: bool = media.media_type == MediaType::Audio
                        || media.media_type == MediaType::Video || media.media_type
                        == MediaType::Screen;
                    if filtered {
                        return self.judge_by_subscription(
                            receiver_sid,
                            packet_wrapper.session_id,
                            media,
                            now,
                        );
                    }
                },
                None => {},
            }
        }
        Verdict::Forward
    }

    /// Decides what becomes of a packet for one receiver.
    pub fn decide(
        &mut self,
        receiver_sid: SessionId,
        packet_wrapper: &PacketWrapper,
        media_packet: Option<&MediaPacket>,
        now: u64,
    ) -> (r: ForwardDecision)
        requires
            old(self).wf(),
        ensures
            final(self).wf(),
            ({
                let media = match media_packet {
                    Some(m) => Some(*m),
                    None => None,
                };
                let (verdict, after) = old(self)@.judged(
                    receiver_sid,
                    *packet_wrapper,
                    media,
                    now,
                );
                r == verdict.decision_spec() && final(self)@ == after
            }),
    {
        self.judge(receiver_sid, packet_wrapper, media_packet, now).decision()
    }

    /// Drops everything about `sid`, as a receiver and as a sender.
    pub fn prune_session(&mut self, sid: SessionId)
        ensures
            old(self).wf() ==> final(self).wf(),
            final(self)@ == old(self)@.after_prune(sid),
    {
        let ghost before = self@;
        let keys = recent_keys(&self.recent_t0);
        proof {
            assert(self@.recent =~= Map::new(
                |k: u128|
                    before.recent.contains_key(k) && !(keys@.take(0).contains(k) && (key_receiver(
                        k,
                    ) == sid || key_sender(k) == sid)),
                |k: u128| before.recent[k],
            ));
        }
        let mut i: usize = 0;
        while i < keys.len()
            invariant
                i <= keys@.len(),
                self.room == old(self).room,
                self.layer_selector == old(self).layer_selector,
                self@ == (ForwarderView { recent: self@.recent, ..before }),
                self@.recent == Map::new(
                    |k: u128|
                        before.recent.contains_key(k) && !(keys@.take(i as int).contains(k) && (
                        key_receiver(k) == sid || key_sender(k) == sid)),
                    |k: u128| before.recent[k],
                ),
            decreases keys@.len() - i,
        {
            let key: u128 = keys[i];
            let receiver: u64 = (key / 0x1_0000_0000_0000_0000) as u64;
            let sender: u64 = (key % 0x1_0000_0000_0000_0000) as u64;
            let ghost prev = self@.recent;
            if receiver == sid || sender == sid {
                self.recent_t0.remove(&key);
                proof {
                    assert(self@.recent =~= prev.remove(key));
                }
            }
            proof {
                assert(receiver == key_receiver(key));
                assert(sender == key_sender(key));
                let longer = keys@.take(i + 1);
                assert forall|k: u128| #[trigger] longer.contains(k) <==> (keys@.take(
                    i as int,
                ).contains(k) || k == key) by {
                    if longer.contains(k) && k != key {
                        let x = choose|x: int| 0 <= x < longer.len() && longer[x] == k;
                        assert(keys@.take(i as int)[x] == k);
                    }
                    if keys@.take(i as int).contains(k) {
                        let x = choose|x: int| 0 <= x < i && keys@.take(i as int)[x] == k;
                        assert(longer[x] == k);
                    }
                    if k == key {
                        assert(longer[i as int] == k);
                    }
                }
                let next = Map::new(
                    |k: u128|
                        before.recent.contains_key(k) && !(longer.contains(k) && (key_receiver(k)
                            == sid || key_sender(k) == sid)),
                    |k: u128| before.recent[k],
                );
                assert forall|k: u128| self@.recent.contains_key(k) <==> next.contains_key(k) by {
                    assert(longer.contains(k) <==> (keys@.take(i as int).contains(k) || k
                        == key));
                }
                assert(self@.recent =~= next);
            }
            i = i + 1;
        }
        proof {
            assert(keys@.take(keys@.len() as int) =~= keys@);
            assert forall|k: u128| before.recent.contains_key(k) implies keys@.contains(k) by {
                assert(keys@.to_set().contains(k));
            }
            assert(self@.recent =~= before.after_prune(sid).recent);
        }
        self.layer_selector.prune_stale(sid);
        proof {
            assert(self@.recent =~= before.after_prune(sid).recent);
        }
    }

    /// Number of receiver and sender pairs with remembered pictures.
    pub fn recent_t0_pair_count(&self) -> (n: usize)
        ensures
            n == self@.recent.dom().len(),
    {
        proof {
            assert(self@.recent.dom() =~= self.recent_t0@.dom());
        }
        self.recent_t0.len()
    }

    /// Whether pictures are remembered for a receiver and a sender.
    pub fn recent_t0_contains_pair(&self, receiver: SessionId, sender: SessionId) -> (r: bool)
        ensures
            r == self@.recent.contains_key(pair_key(receiver, sender)),
    {
        self.recent_t0.contains_key(&make_pair_key(receiver, sender))
    }
}

/// Whether a choice of layers leaves out this layer of a stream.
fn layer_is_beyond(selection: &LayerSelection, stream: StreamKey, temporal: u32) -> (r: bool)
    requires
        selection.wf(),
    ensures
        r == beyond(selection@, stream, temporal),
{
    match selection.forward.get(&stream) {
        Some(max) => temporal > max,
        None => true,
    }
}

/// The keys of the remembered pictures.
fn recent_keys(m: &HashMap<u128, RecentT0Set>) -> (r: Vec<u128>)
    ensures
        r@.to_set() == m@.dom(),
{
    let mut r: Vec<u128> = Vec::new();
    for k in it: m.keys()
        invariant
            it.seq().unref().to_set() == m@.dom(),
            r@ == it.seq().unref().take(it.index() as int),
            it.seq().unref().len() == it.seq().len(),
    {
        let ghost n = it.index() as int;
        let ghost q = it.seq().unref();
        r.push(*k);
        proof {
            assert(q[n] == *k);
            assert(r@ =~= q.take(n + 1));
        }
    }
    proof {
        assert forall|q: Seq<u128>, n: int| n == q.len() implies #[trigger] q.take(n) == q by {
            assert(q.take(n) =~= q);
        }
    }
    r
}

/// No sender gets its own packets back, whatever they are, and nothing changes.
pub proof fn law_own_packets_are_dropped(
    f: ForwarderView,
    receiver: SessionId,
    packet: PacketWrapper,
    media: Option<MediaPacket>,
    now: u64,
)
    requires
        packet.session_id == receiver,
    ensures
        f.judged(receiver, packet, media, now) == (Verdict::Drop(DropReason::SelfSkip), f),
{
}

/// What is not audio, video or screen media of someone else always passes, and
/// nothing changes.
pub proof fn law_signalling_passes(
    f: ForwarderView,
    receiver: SessionId,
    packet: PacketWrapper,
    media: Option<MediaPacket>,
    now: u64,
)
    requires
        packet.session_id != receiver,
        packet.packet_type != PacketType::Media || media is None || !is_filtered(
            media->0.media_type,
        ),
    ensures
        f.judged(receiver, packet, media, now) == (Verdict::Forward, f),
{
}

/// Media of someone else is dropped as unsubscribed exactly if the receiver's
/// subscription does not admit it.
pub proof fn law_unsubscribed_means_refused(
    f: ForwarderView,
    receiver: SessionId,
    packet: PacketWrapper,
    media: MediaPacket,
    now: u64,
)
    requires
        packet.session_id != receiver,
        packet.packet_type == PacketType::Media,
        is_filtered(media.media_type),
    ensures
        f.judged(receiver, packet, Some(media), now).0 == Verdict::Drop(DropReason::Unsubscribed)
            <==> f.admission(receiver, packet.session_id, media.media_type) == Admission::Refused,
{
}

/// An admitted keyframe of the base layer always passes.
pub proof fn law_base_keyframe_passes(
    f: ForwarderView,
    receiver: SessionId,
    packet: PacketWrapper,
    media: MediaPacket,
    now: u64,
)
    requires
        packet.session_id != receiver,
        packet.packet_type == PacketType::Media,
        media.media_type == MediaType::Video || media.media_type == MediaType::Screen,
        media.routing_header matches Some(h) && h.is_base_keyframe(),
        f.admission(receiver, packet.session_id, media.media_type) != Admission::Refused,
    ensures
        f.judged(receiver, packet, Some(media), now).0 == Verdict::ForwardKeyframe,
{
}

/// Admitted audio, and admitted video without a routing header, always passes.
pub proof fn law_plain_media_passes(
    f: ForwarderView,
    receiver: SessionId,
    packet: PacketWrapper,
    media: MediaPacket,
    now: u64,
)
    requires
        packet.session_id != receiver,
        packet.packet_type == PacketType::Media,
        is_filtered(media.media_type),
        media.media_type == MediaType::Audio || media.routing_header is None,
        f.admission(receiver, packet.session_id, media.media_type) != Admission::Refused,
    ensures
        f.judged(receiver, packet, Some(media), now) == (
            Verdict::Forward,
            f.after_lookup(receiver),
        ),
{
}

/// Without a reported downlink no layer is dropped for want of room.
pub proof fn law_no_budget_drop_without_downlink(
    f: ForwarderView,
    receiver: SessionId,
    packet: PacketWrapper,
    media: Option<MediaPacket>,
    now: u64,
)
    requires
        f.downlink(receiver) is None,
    ensures
        f.judged(receiver, packet, media, now).0 != Verdict::Drop(DropReason::LayerBudget),
{
}

/// A receiver that never declared a subscription gets everyone's audio, and the
/// video of every member and every remote video publisher is admitted. `inputs`
/// says what the generations stand for, as in
/// [`law_decision_rests_on_fresh_resolution`].
pub proof fn law_undeclared_receiver_gets_everyone(
    f: ForwarderView,
    inputs: spec_fn(u64, u64) -> crate::subscription::RoomInputs,
    receiver: SessionId,
    sender: SessionId,
)
    requires
        crate::subscription::cache_coherent(f.store, inputs),
        inputs(f.room.generation, f.speakers.generation) == f.inputs(),
        f.store.sub(receiver) is None,
        sender != receiver,
    ensures
        f.admission(receiver, sender, MediaType::Audio) == Admission::Allowed,
        f.room.members_snapshot.contains(sender) || f.room.remotes.video.contains(sender) ==> {
            &&& f.admission(receiver, sender, MediaType::Video) == Admission::Allowed
            &&& f.admission(receiver, sender, MediaType::Screen) == Admission::Allowed
        },
{
    crate::subscription::law_cache_is_never_stale(
        f.store,
        inputs,
        receiver,
        f.room.generation,
        f.speakers.generation,
        arbitrary(),
        f.room.members_snapshot,
    );
}

/// A forwarded base-layer picture serves as a reference for [`RECENT_T0_TTL`].
pub proof fn law_forwarded_picture_is_remembered(
    f: ForwarderView,
    receiver: SessionId,
    sender: SessionId,
    header: RoutingHeader,
    now: u64,
    later: u64,
)
    requires
        !header.is_keyframe,
        header.temporal_layer_id == 0,
        now <= later,
        later - now <= RECENT_T0_TTL,
    ensures
        ({
            let (verdict, after) = f.by_reference(receiver, sender, header, now);
            &&& verdict == Verdict::Forward
            &&& has_picture(after.pictures(receiver, sender), header.picture_id, later)
        }),
{
    let kept = with_picture(f.pictures(receiver, sender), header.picture_id, now);
    assert(kept[kept.len() - 1] == (header.picture_id, now));
}

/// An enhancement frame that is decoded against a base-layer picture is forwarded
/// only if that picture was forwarded to the receiver within [`RECENT_T0_TTL`].
pub proof fn law_references_are_honoured(
    f: ForwarderView,
    receiver: SessionId,
    packet: PacketWrapper,
    media: MediaPacket,
    now: u64,
)
    requires
        packet.session_id != receiver,
        packet.packet_type == PacketType::Media,
        media.media_type == MediaType::Video || media.media_type == MediaType::Screen,
        media.routing_header matches Some(h) && !h.is_keyframe && h.temporal_layer_id > 0
            && h.references_t0,
        f.judged(receiver, packet, Some(media), now).0.decision_spec() == ForwardDecision::Forward,
    ensures
        has_picture(
            f.pictures(receiver, packet.session_id),
            media.routing_header->0.picture_id,
            now,
        ),
{
}

/// No more than [`RECENT_T0_CAPACITY`] pictures are remembered per pair.
pub open spec fn pictures_bounded(f: ForwarderView) -> bool {
    forall|k: u128| #[trigger] f.recent.contains_key(k) ==> f.recent[k].len() <= RECENT_T0_CAPACITY
}

/// The bound on remembered pictures survives every decision and every pruning.
pub proof fn law_pictures_stay_bounded(
    f: ForwarderView,
    receiver: SessionId,
    packet: PacketWrapper,
    media: Option<MediaPacket>,
    now: u64,
    sid: SessionId,
)
    requires
        pictures_bounded(f),
    ensures
        pictures_bounded(f.judged(receiver, packet, media, now).1),
        pictures_bounded(f.after_prune(sid)),
{
    let after = f.judged(receiver, packet, media, now).1;
    assert forall|k: u128| #[trigger] after.recent.contains_key(k) implies after.recent[k].len()
        <= RECENT_T0_CAPACITY by {
        if f.recent.contains_key(k) {
            assert(f.recent[k].len() <= RECENT_T0_CAPACITY);
        }
    }
    let pruned = f.after_prune(sid);
    assert forall|k: u128| #[trigger] pruned.recent.contains_key(k) implies pruned.recent[k].len()
        <= RECENT_T0_CAPACITY by {
        assert(f.recent.contains_key(k));
    }
}

/// A decision for one receiver leaves every other receiver's state, the room, the
/// speakers and all declarations as they were.
pub proof fn law_decisions_are_isolated(
    f: ForwarderView,
    receiver: SessionId,
    other: SessionId,
    packet: PacketWrapper,
    media: Option<MediaPacket>,
    now: u64,
    sender: SessionId,
)
    requires
        other != receiver,
    ensures
        ({
            let after = f.judged(receiver, packet, media, now).1;
            &&& after.room == f.room
            &&& after.speakers == f.speakers
            &&& after.store.subs == f.store.subs
            &&& after.store.pending == f.store.pending
            &&& after.store.versions == f.store.versions
            &&& after.allow(other) == f.allow(other)
            &&& after.selector.state(other) == f.selector.state(other)
            &&& after.selector.selections.contains_key(other)
                == f.selector.selections.contains_key(other)
            &&& f.selector.selections.contains_key(other)
                ==> after.selector.selections[other] == f.selector.selections[other]
            &&& after.pictures(other, sender) == f.pictures(other, sender)
        }),
{
    lemma_pair_key(other, sender);
    lemma_pair_key(receiver, packet.session_id);
}

/// Weighing a guest keeps nothing: the choices made for members stay as they were.
pub proof fn law_guest_leaves_choices_alone(
    f: ForwarderView,
    receiver: SessionId,
    packet: PacketWrapper,
    media: MediaPacket,
    now: u64,
)
    requires
        packet.session_id != receiver,
        packet.packet_type == PacketType::Media,
        is_filtered(media.media_type),
        f.admission(receiver, packet.session_id, media.media_type) == Admission::Guest,
    ensures
        f.judged(receiver, packet, Some(media), now).1.selector == f.selector,
{
}

/// Decisions rest on what the subscription resolves to now: where the cache is
/// coherent and the present generations stand for the present inputs, the allow
/// set consulted is a fresh resolution, and the cache stays coherent.
pub proof fn law_decision_rests_on_fresh_resolution(
    f: ForwarderView,
    inputs: spec_fn(u64, u64) -> crate::subscription::RoomInputs,
    receiver: SessionId,
    packet: PacketWrapper,
    media: Option<MediaPacket>,
    now: u64,
)
    requires
        crate::subscription::cache_coherent(f.store, inputs),
        inputs(f.room.generation, f.speakers.generation) == f.inputs(),
    ensures
        f.allow(receiver) == crate::subscription::resolved(
            f.store.sub(receiver),
            receiver,
            f.inputs(),
        ),
        crate::subscription::cache_coherent(
            f.judged(receiver, packet, media, now).1.store,
            inputs,
        ),
{
    crate::subscription::law_cache_is_never_stale(
        f.store,
        inputs,
        receiver,
        f.room.generation,
        f.speakers.generation,
        arbitrary(),
        f.room.members_snapshot,
    );
}

/// Pruning drops every trace of a session in the pictures and the choices, leaves
/// those of others, and doing it twice is doing it once.
pub proof fn law_prune_is_complete(
    f: ForwarderView,
    sid: SessionId,
    a: SessionId,
    b: SessionId,
)
    ensures
        ({
            let after = f.after_prune(sid);
            &&& after.after_prune(sid) == after
            &&& !after.recent.contains_key(pair_key(sid, a))
            &&& !after.recent.contains_key(pair_key(a, sid))
            &&& after.selector.state(sid) is None
            &&& !after.selector.selections.contains_key(sid)
            &&& a != sid && b != sid ==> after.pictures(a, b) == f.pictures(a, b)
            &&& a != sid ==> after.selector.state(a) == f.selector.state(a)
        }),
{
    lemma_pair_key(sid, a);
    lemma_pair_key(a, sid);
    lemma_pair_key(a, b);
    let after = f.after_prune(sid);
    assert(after.after_prune(sid).recent =~= after.recent);
    assert(after.after_prune(sid).selector.states =~= after.selector.states);
    assert(after.after_prune(sid).selector.selections =~= after.selector.selections);
}

/// Screen media is treated as video is: two frames that differ in nothing else meet
/// the same fate and leave the same state.
pub proof fn law_screen_rides_with_video(
    f: ForwarderView,
    receiver: SessionId,
    packet: PacketWrapper,
    routing_header: Option<RoutingHeader>,
    now: u64,
)
    ensures
        ({
            let video = MediaPacket { media_type: MediaType::Video, routing_header };
            let screen = MediaPacket { media_type: MediaType::Screen, routing_header };
            f.judged(receiver, packet, Some(screen), now) == f.judged(
                receiver,
                packet,
                Some(video),
                now,
            )
        }),
        f.admission(receiver, packet.session_id, MediaType::Screen) == f.admission(
            receiver,
            packet.session_id,
            MediaType::Video,
        ),
{
}

/// The allow set is binding: whoever is in it is admitted, whatever the receiver's
/// wishes for everyone's audio or video are.
pub proof fn law_allowed_senders_are_admitted(
    f: ForwarderView,
    receiver: SessionId,
    sender: SessionId,
)
    ensures
        f.allow(receiver).video.contains_key(sender) ==> {
            &&& f.admission(receiver, sender, MediaType::Video) == Admission::Allowed
            &&& f.admission(receiver, sender, MediaType::Screen) == Admission::Allowed
        },
        f.allow(receiver).audio.contains(sender) ==> f.admission(
            receiver,
            sender,
            MediaType::Audio,
        ) == Admission::Allowed,
{
}

/// What the receiver's subscription resolves to against the room as it is now.
pub open spec fn resolved_now(
    f: ForwarderView,
    receiver: SessionId,
) -> crate::subscription::AllowView {
    crate::subscription::resolved(
        f.store.sub(receiver),
        receiver,
        crate::subscription::RoomInputs {
            members: f.room.members_snapshot,
            speakers: f.speakers.top,
            remote: f.room.remotes,
        },
    )
}

/// The cache answers by what the room's members and speakers are now: it is coherent,
/// and the present generations stand for the present inputs.
pub open spec fn cache_is_sound(
    f: ForwarderView,
    inputs: spec_fn(u64, u64) -> crate::subscription::RoomInputs,
) -> bool {
    &&& crate::subscription::cache_coherent(f.store, inputs)
    &&& inputs(f.room.generation, f.speakers.generation) == (
    crate::subscription::RoomInputs {
        members: f.room.members_snapshot,
        speakers: f.speakers.top,
        remote: f.room.remotes,
    })
}

/// The subscription decides alone who is unsubscribed. Audio passes from whom the
/// allow set names, and from everyone if the receiver made no declaration or wants
/// everyone's audio. Video and screen media pass from whom the allow set names, and,
/// if the receiver made no declaration or wants everyone's video, from anyone while
/// fewer than six are named.
pub proof fn law_subscription_decides(
    f: ForwarderView,
    inputs: spec_fn(u64, u64) -> crate::subscription::RoomInputs,
    receiver: SessionId,
    packet: PacketWrapper,
    media: MediaPacket,
    now: u64,
)
    requires
        cache_is_sound(f, inputs),
        packet.session_id != receiver,
        packet.packet_type == PacketType::Media,
    ensures
        ({
            let sender = packet.session_id;
            let allow = resolved_now(f, receiver);
            let refused = f.judged(receiver, packet, Some(media), now).0 == Verdict::Drop(
                DropReason::Unsubscribed,
            );
            let silent = !f.store.subs.contains_key(receiver);
            &&& media.media_type == MediaType::Audio ==> (refused <==> !(allow.audio.contains(sender)
                || silent || f.store.subs[receiver].receive_all_audio))
            &&& media.media_type == MediaType::Video || media.media_type == MediaType::Screen ==> (
            refused <==> !(allow.video.contains_key(sender) || (silent
                || f.store.subs[receiver].receive_all_video) && allow.video.dom().len() < 6))
        }),
{
    law_decision_rests_on_fresh_resolution(f, inputs, receiver, packet, Some(media), now);
}

/// The choice of layers that `receiver`'s streams are weighed against at `kbps`: the
/// one that is kept, if it was made for this downlink and the present speakers, and
/// otherwise the one that is emitted now.
pub open spec fn weighed_against(
    f: ForwarderView,
    receiver: SessionId,
    kbps: u32,
    now: u64,
) -> Map<StreamKey, u32> {
    let kept = f.selector.selections;
    if kept.contains_key(receiver) && kept[receiver].generation == f.speakers.generation
        && kept[receiver].bandwidth_kbps == kbps {
        kept[receiver].selection
    } else {
        f.selector.next_state(
            receiver,
            resolved_now(f, receiver).video,
            f.speakers.top,
            kbps,
            now,
        ).last
    }
}

/// What becomes of a frame of an allowed sender. A keyframe of the base layer passes.
/// Any other frame has to be within the layers chosen for the receiver's downlink, if
/// that is known; and if it is an enhancement frame that is decoded against a
/// base-layer picture, that picture has to have been forwarded within five seconds.
/// Then it passes.
pub proof fn law_frames_of_allowed_senders(
    f: ForwarderView,
    inputs: spec_fn(u64, u64) -> crate::subscription::RoomInputs,
    receiver: SessionId,
    packet: PacketWrapper,
    media: MediaPacket,
    h: RoutingHeader,
    now: u64,
)
    requires
        cache_is_sound(f, inputs),
        packet.session_id != receiver,
        packet.packet_type == PacketType::Media,
        media.media_type == MediaType::Video || media.media_type == MediaType::Screen,
        media.routing_header == Some(h),
        resolved_now(f, receiver).video.contains_key(packet.session_id),
    ensures
        ({
            let sender = packet.session_id;
            let verdict = f.judged(receiver, packet, Some(media), now).0;
            let member = f.room.members[receiver];
            let measured = f.room.members.contains_key(receiver)
                && member.bandwidth_estimate is Some;
            let kbps = member.bandwidth_estimate->0.estimated_downlink_kbps;
            let chosen = weighed_against(f, receiver, kbps, now);
            let stream = (sender, h.spatial_layer_id);
            let fits = !measured || chosen.contains_key(stream) && h.temporal_layer_id
                <= chosen[stream];
            let pictures = f.pictures(receiver, sender);
            let decodable = h.is_keyframe || h.temporal_layer_id == 0 || !h.references_t0
                || exists|i: int|
                0 <= i < pictures.len() && (#[trigger] pictures[i]).0 == h.picture_id && now
                    <= pictures[i].1 + 5_000_000_000;
            if h.is_keyframe && h.temporal_layer_id == 0 && h.spatial_layer_id == 0 {
                verdict == Verdict::ForwardKeyframe
            } else if !fits {
                verdict == Verdict::Drop(DropReason::LayerBudget)
            } else if !decodable {
                verdict == Verdict::Drop(DropReason::ReferenceMiss)
            } else {
                verdict == Verdict::Forward
            }
        }),
{
    law_decision_rests_on_fresh_resolution(f, inputs, receiver, packet, Some(media), now);
    let pictures = f.pictures(receiver, packet.session_id);
    if has_picture(pictures, h.picture_id, now) {
        let i = choose|i: int|
            0 <= i < pictures.len() && (#[trigger] pictures[i]).0 == h.picture_id && age(
                now,
                pictures[i].1,
            ) <= RECENT_T0_TTL;
        assert(now <= pictures[i].1 + 5_000_000_000);
    } else {
        assert forall|i: int|
            0 <= i < pictures.len() && (#[trigger] pictures[i]).0 == h.picture_id implies now
            > pictures[i].1 + 5_000_000_000 by {}
    }
}

/// What becomes of a frame of a sender that is admitted beside the allow set. It is
/// treated as one of an allowed sender is, but weighed against the layers that would
/// be chosen were the sender allowed at the base layer, and that choice is not kept.
pub proof fn law_frames_of_guests(
    f: ForwarderView,
    inputs: spec_fn(u64, u64) -> crate::subscription::RoomInputs,
    receiver: SessionId,
    packet: PacketWrapper,
    media: MediaPacket,
    h: RoutingHeader,
    now: u64,
)
    requires
        cache_is_sound(f, inputs),
        packet.session_id != receiver,
        packet.packet_type == PacketType::Media,
        media.media_type == MediaType::Video || media.media_type == MediaType::Screen,
        media.routing_header == Some(h),
        !resolved_now(f, receiver).video.contains_key(packet.session_id),
        resolved_now(f, receiver).video.dom().len() < 6,
        f.store.subs.contains_key(receiver) ==> f.store.subs[receiver].receive_all_video,
    ensures
        ({
            let sender = packet.session_id;
            let (verdict, after) = f.judged(receiver, packet, Some(media), now);
            let member = f.room.members[receiver];
            let measured = f.room.members.contains_key(receiver)
                && member.bandwidth_estimate is Some;
            let chosen = f.selector.pick(
                receiver,
                resolved_now(f, receiver).video.insert(
                    sender,
                    LayerPref { preferred_spatial: 0, preferred_temporal: 0 },
                ),
                f.speakers.top,
                member.bandwidth_estimate->0.estimated_downlink_kbps,
            );
            let stream = (sender, h.spatial_layer_id);
            let fits = !measured || chosen.contains_key(stream) && h.temporal_layer_id
                <= chosen[stream];
            let pictures = f.pictures(receiver, sender);
            let decodable = h.is_keyframe || h.temporal_layer_id == 0 || !h.references_t0
                || exists|i: int|
                0 <= i < pictures.len() && (#[trigger] pictures[i]).0 == h.picture_id && now
                    <= pictures[i].1 + 5_000_000_000;
            &&& after.selector == f.selector
            &&& if h.is_keyframe && h.temporal_layer_id == 0 && h.spatial_layer_id == 0 {
                verdict == Verdict::ForwardKeyframe
            } else if !fits {
                verdict == Verdict::Drop(DropReason::LayerBudget)
            } else if !decodable {
                verdict == Verdict::Drop(DropReason::ReferenceMiss)
            } else {
                verdict == Verdict::Forward
            }
        }),
{
    law_decision_rests_on_fresh_resolution(f, inputs, receiver, packet, Some(media), now);
    let pictures = f.pictures(receiver, packet.session_id);
    if has_picture(pictures, h.picture_id, now) {
        let i = choose|i: int|
            0 <= i < pictures.len() && (#[trigger] pictures[i]).0 == h.picture_id && age(
                now,
                pictures[i].1,
            ) <= RECENT_T0_TTL;
        assert(now <= pictures[i].1 + 5_000_000_000);
    } else {
        assert forall|i: int|
            0 <= i < pictures.len() && (#[trigger] pictures[i]).0 == h.picture_id implies now
            > pictures[i].1 + 5_000_000_000 by {}
    }
}

/// Media without a routing header, and audio, passes wherever it is not unsubscribed;
/// what is not audio, video or screen media of someone else passes always.
pub proof fn law_the_rest_passes(
    f: ForwarderView,
    receiver: SessionId,
    packet: PacketWrapper,
    media: Option<MediaPacket>,
    now: u64,
)
    requires
        packet.session_id != receiver,
        media matches Some(m) ==> m.routing_header is None || m.media_type == MediaType::Audio || (
        m.media_type != MediaType::Video && m.media_type != MediaType::Screen),
    ensures
        ({
            let verdict = f.judged(receiver, packet, media, now).0;
            let after = f.judged(receiver, packet, media, now).1;
            let plain = packet.packet_type != PacketType::Media || media is None || (
            media->0.media_type != MediaType::Audio && media->0.media_type != MediaType::Video
                && media->0.media_type != MediaType::Screen);
            &&& plain ==> verdict == Verdict::Forward && after == f
            &&& verdict == Verdict::Forward || verdict == Verdict::Drop(DropReason::Unsubscribed)
            &&& after.recent == f.recent
            &&& after.selector == f.selector
        }),
{
}

/// Exactly the base-layer frames that are no keyframes are remembered, as they pass;
/// no other decision changes what is remembered of any receiver and sender.
pub proof fn law_base_frames_are_remembered(
    f: ForwarderView,
    receiver: SessionId,
    packet: PacketWrapper,
    media: MediaPacket,
    now: u64,
    a: SessionId,
    b: SessionId,
)
    requires
        packet.session_id != receiver,
        packet.packet_type == PacketType::Media,
        media.media_type == MediaType::Video || media.media_type == MediaType::Screen,
    ensures
        ({
            let (verdict, after) = f.judged(receiver, packet, Some(media), now);
            let base = media.routing_header matches Some(h) && !h.is_keyframe
                && h.temporal_layer_id == 0;
            if base && verdict == Verdict::Forward && a == receiver && b == packet.session_id {
                after.pictures(a, b) == with_picture(
                    f.pictures(a, b),
                    media.routing_header->0.picture_id,
                    now,
                )
            } else {
                after.pictures(a, b) == f.pictures(a, b)
            }
        }),
{
    lemma_pair_key(receiver, packet.session_id);
    lemma_pair_key(a, b);
}

/// A choice is made anew, and kept, exactly when a frame of an allowed sender has to
/// be weighed and the choice that is kept was made for another downlink or other
/// speakers.
pub proof fn law_choice_is_made_anew_when_stale(
    f: ForwarderView,
    inputs: spec_fn(u64, u64) -> crate::subscription::RoomInputs,
    receiver: SessionId,
    packet: PacketWrapper,
    media: MediaPacket,
    h: RoutingHeader,
    now: u64,
)
    requires
        cache_is_sound(f, inputs),
        packet.session_id != receiver,
        packet.packet_type == PacketType::Media,
        media.media_type == MediaType::Video || media.media_type == MediaType::Screen,
        media.routing_header == Some(h),
        resolved_now(f, receiver).video.contains_key(packet.session_id),
    ensures
        ({
            let after = f.judged(receiver, packet, Some(media), now).1;
            let member = f.room.members[receiver];
            let measured = f.room.members.contains_key(receiver)
                && member.bandwidth_estimate is Some;
            let kbps = member.bandwidth_estimate->0.estimated_downlink_kbps;
            let kept = f.selector.selections;
            let current = kept.contains_key(receiver) && kept[receiver].generation
                == f.speakers.generation && kept[receiver].bandwidth_kbps == kbps;
            let base_keyframe = h.is_keyframe && h.temporal_layer_id == 0 && h.spatial_layer_id
                == 0;
            if measured && !current && !base_keyframe {
                after.selector == f.selector.after_recompute(
                    receiver,
                    resolved_now(f, receiver).video,
                    f.speakers.top,
                    kbps,
                    f.speakers.generation,
                    now,
                )
            } else {
                after.selector == f.selector
            }
        }),
{
    law_decision_rests_on_fresh_resolution(f, inputs, receiver, packet, Some(media), now);
}

/// What is remembered of forwarded pictures. The newest is there. Of the others, the
/// latest 63 that are not older than five seconds stay, in their order, and nothing is
/// added.
pub proof fn law_latest_pictures_stay(s: Seq<(u64, u64)>, picture_id: u64, now: u64)
    ensures
        ({
            let after = with_picture(s, picture_id, now);
            &&& after.len() > 0 && after.last() == (picture_id, now)
            &&& after.len() <= 64
            &&& forall|i: int|
                0 <= i < s.len() && s.len() - 63 <= i && now <= (#[trigger] s[i]).1 + 5_000_000_000
                    ==> after.contains(s[i])
            &&& exists|c: int|
                0 <= c <= s.len() && after.drop_last() == #[trigger] s.skip(c)
        }),
{
    lemma_stale_front(s, now);
    let fresh = without_stale_front(s, now);
    let d = s.len() - fresh.len();
    let all = fresh.push((picture_id, now));
    let after = with_picture(s, picture_id, now);
    let cut = all.len() - after.len();
    assert(after =~= all.skip(cut));
    assert forall|i: int|
        0 <= i < s.len() && s.len() - 63 <= i && now <= (#[trigger] s[i]).1
            + 5_000_000_000 implies after.contains(s[i]) by {
        assert(i >= d);
        assert(fresh[i - d] == s[i]);
        assert(after[i - d - cut] == s[i]);
    }
    assert(after.drop_last() =~= s.skip(cut + d));
}

/// Only leading pictures that are too old are left out.
proof fn lemma_stale_front(s: Seq<(u64, u64)>, now: u64)
    ensures
        ({
            let fresh = without_stale_front(s, now);
            &&& fresh.len() <= s.len()
            &&& fresh == s.skip(s.len() - fresh.len())
            &&& forall|i: int|
                0 <= i < s.len() - fresh.len() ==> now > (#[trigger] s[i]).1 + 5_000_000_000
        }),
    decreases s.len(),
{
    let fresh = without_stale_front(s, now);
    if s.len() > 0 && age(now, s[0].1) > RECENT_T0_TTL {
        let rest = s.drop_first();
        lemma_stale_front(rest, now);
        assert(fresh =~= s.skip(s.len() - fresh.len()));
        assert forall|i: int| 0 <= i < s.len() - fresh.len() implies now > (#[trigger] s[i]).1
            + 5_000_000_000 by {
            if i > 0 {
                assert(s[i] == rest[i - 1]);
            }
        }
    } else {
        assert(fresh =~= s.skip(0));
    }
}

/// Pruning a session touches neither the room nor the speakers nor any declaration,
/// and none of the choices that are kept for others.
pub proof fn law_prune_leaves_the_rest(f: ForwarderView, sid: SessionId, other: SessionId)
    requires
        other != sid,
    ensures
        ({
            let after = f.after_prune(sid);
            &&& after.room == f.room
            &&& after.speakers == f.speakers
            &&& after.store == f.store
            &&& after.selector.selections.contains_key(other)
                == f.selector.selections.contains_key(other)
            &&& f.selector.selections.contains_key(other) ==> after.selector.selections[other]
                == f.selector.selections[other]
        }),
{
}

/// The names of two different kinds of packet differ, and so do those of two
/// different reasons to drop one.
pub proof fn law_labels_are_distinct(a: PacketType, b: PacketType, c: DropReason, d: DropReason)
    ensures
        packet_label(a) == packet_label(b) ==> a == b,
        c.label_spec() == d.label_spec() ==> c == d,
{
    reveal_strlit("unknown");
    reveal_strlit("rsa_pub_key");
    reveal_strlit("aes_key");
    reveal_strlit("media");
    reveal_strlit("connection");
    reveal_strlit("diagnostics");
    reveal_strlit("health");
    reveal_strlit("meeting");
    reveal_strlit("session_assigned");
    reveal_strlit("congestion");
    reveal_strlit("subscription_update");
    reveal_strlit("speaker_update");
    reveal_strlit("layer_hint");
    reveal_strlit("admission_decision");
    reveal_strlit("capability_announce");
    reveal_strlit("health_beacon");
    reveal_strlit("self_skip");
    reveal_strlit("unsubscribed");
    reveal_strlit("layer_budget");
    reveal_strlit("reference_miss");
    let x = packet_label(a);
    let y = packet_label(b);
    assert(x[0] == y[0] && x[3] == y[3] && x.len() == y.len() ==> a == b);
    let z = c.label_spec();
    let w = d.label_spec();
    assert(z[0] == w[0] ==> c == d);
}

/// The bare decision is to drop exactly if there is a reason to.
pub proof fn law_decision_follows_verdict(verdict: Verdict)
    ensures
        verdict.decision_spec() == ForwardDecision::Drop <==> verdict != Verdict::Forward && verdict
            != Verdict::ForwardKeyframe,
{
}

} // verus!
