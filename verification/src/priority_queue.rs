//! Outbound queues by priority class and the order in which they are drained.
//!
//! Five bounded queues, from control to enhancement layers, each with its own
//! policy when full. The consumer serves the highest class first, but after a
//! quantum of packets a class waits until every other loaded class had its turn.
use std::collections::VecDeque;

use bytes::Bytes;

use crate::packet::{MediaType, PacketType, PacketWrapper, RoutingHeader};

use vstd::prelude::*;

verus! {

/// [`bytes::Bytes`], a shared byte buffer. Queues carry such buffers and look at
/// none of them.
#[verifier::external_type_specification]
#[verifier::external_body]
pub struct ExBytes(bytes::Bytes);

/// Outbound class, highest priority first.
#[derive(Debug, Clone, Copy, PartialEq, Eq, Hash, Structural)]
pub enum Class {
    /// Control and signalling. Never dropped.
    P0Control,
    /// Audio.
    P1Audio,
    /// Keyframes of the base layer.
    P2Keyframe,
    /// Other base-layer video.
    P3VideoBase,
    /// Enhancement layers and screen share.
    P4Enhancement,
}

/// What happens when a full queue is offered another entry.
#[derive(Debug, Clone, Copy, PartialEq, Eq, Structural)]
pub enum DropPolicy {
    /// The oldest entry makes room for the new one.
    TailDropOldest,
    /// The new entry is dropped and the queued ones stay.
    HeadDropOldest,
    /// The new entry is refused.
    NeverDrop,
}

impl Class {
    /// Position in the order of priority.
    pub open spec fn index_spec(self) -> int {
        match self {
            Class::P0Control => 0,
            Class::P1Audio => 1,
            Class::P2Keyframe => 2,
            Class::P3VideoBase => 3,
            Class::P4Enhancement => 4,
        }
    }

    /// How many entries the queue of this class holds.
    pub open spec fn capacity_spec(self) -> usize {
        match self {
            Class::P0Control => 32,
            Class::P1Audio => 128,
            Class::P2Keyframe => 128,
            Class::P3VideoBase => 256,
            Class::P4Enhancement => 256,
        }
    }

    /// How many entries the queue of this class holds.
    #[verifier::when_used_as_spec(capacity_spec)]
    pub fn capacity(self) -> (r: usize)
        ensures
            r == self.capacity_spec(),
    {
        match self {
            Class::P0Control => 32,
            Class::P1Audio => 128,
            Class::P2Keyframe => 128,
            Class::P3VideoBase => 256,
            Class::P4Enhancement => 256,
        }
    }

    /// What happens when the queue of this class is full.
    pub open spec fn drop_policy_spec(self) -> DropPolicy {
        match self {
            Class::P0Control => DropPolicy::NeverDrop,
            Class::P1Audio => DropPolicy::TailDropOldest,
            Class::P2Keyframe => DropPolicy::TailDropOldest,
            Class::P3VideoBase => DropPolicy::TailDropOldest,
            Class::P4Enhancement => DropPolicy::HeadDropOldest,
        }
    }

    /// What happens when the queue of this class is full.
    #[verifier::when_used_as_spec(drop_policy_spec)]
    pub fn drop_policy(self) -> (r: DropPolicy)
        ensures
            r == self.drop_policy_spec(),
    {
        match self {
            Class::P0Control => DropPolicy::NeverDrop,
            Class::P1Audio => DropPolicy::TailDropOldest,
            Class::P2Keyframe => DropPolicy::TailDropOldest,
            Class::P3VideoBase => DropPolicy::TailDropOldest,
            Class::P4Enhancement => DropPolicy::HeadDropOldest,
        }
    }

    /// All classes, highest priority first.
    pub fn all() -> (r: [Class; 5])
        ensures
            r@ == seq![
                Class::P0Control,
                Class::P1Audio,
                Class::P2Keyframe,
                Class::P3VideoBase,
                Class::P4Enhancement,
            ],
    {
        let r = [
            Class::P0Control,
            Class::P1Audio,
            Class::P2Keyframe,
            Class::P3VideoBase,
            Class::P4Enhancement,
        ];
        proof {
            assert(r@ =~= seq![
                Class::P0Control,
                Class::P1Audio,
                Class::P2Keyframe,
                Class::P3VideoBase,
                Class::P4Enhancement,
            ]);
        }
        r
    }

    /// Name of the class in metrics.
    pub open spec fn label_spec(self) -> Seq<char> {
        match self {
            Class::P0Control => "P0Control"@,
            Class::P1Audio => "P1Audio"@,
            Class::P2Keyframe => "P2Keyframe"@,
            Class::P3VideoBase => "P3VideoBase"@,
            Class::P4Enhancement => "P4Enhancement"@,
        }
    }

    /// Name of the class in metrics.
    pub fn metric_label(self) -> (r: &'static str)
        ensures
            r@ == self.label_spec(),
    {
        match self {
            Class::P0Control => "P0Control",
            Class::P1Audio => "P1Audio",
            Class::P2Keyframe => "P2Keyframe",
            Class::P3VideoBase => "P3VideoBase",
            Class::P4Enhancement => "P4Enhancement",
        }
    }
}

/// Packets that control or signal, by their kind alone.
pub open spec fn is_control(t: PacketType) -> bool {
    ||| t == PacketType::Congestion
    ||| t == PacketType::SessionAssigned
    ||| t == PacketType::SpeakerUpdate
    ||| t == PacketType::Meeting
    ||| t == PacketType::SubscriptionUpdate
    ||| t == PacketType::LayerHint
    ||| t == PacketType::AdmissionDecision
    ||| t == PacketType::CapabilityAnnounce
}

/// Class of a media packet.
pub open spec fn class_of_media(
    media_type: Option<MediaType>,
    header: Option<RoutingHeader>,
) -> Class {
    if media_type == Some(MediaType::Heartbeat) || media_type == Some(MediaType::Rtt) || media_type
        == Some(MediaType::KeyframeRequest) {
        Class::P0Control
    } else if media_type == Some(MediaType::Audio) {
        Class::P1Audio
    } else if media_type == Some(MediaType::Screen) {
        Class::P4Enhancement
    } else {
        match header {
            None => Class::P3VideoBase,
            Some(h) => if h.temporal_layer_id > 0 || h.spatial_layer_id > 0 {
                Class::P4Enhancement
            } else if h.is_keyframe {
                Class::P2Keyframe
            } else {
                Class::P3VideoBase
            },
        }
    }
}

/// Class of an outbound packet.
pub open spec fn class_of(
    packet: PacketWrapper,
    media_type: Option<MediaType>,
    header: Option<RoutingHeader>,
) -> Class {
    if is_control(packet.packet_type) {
        Class::P0Control
    } else if packet.packet_type == PacketType::Media {
        class_of_media(media_type, header)
    } else {
        Class::P3VideoBase
    }
}

/// The class that an outbound packet is queued in.
///
/// Control packets, and media that carries heartbeats, round-trip probes or
/// keyframe requests, go first. Audio has its class; screen share is always an
/// enhancement; video goes by its layer. Whatever else there is, and video
/// without a routing header, counts as base-layer video.
pub fn classify_outbound(
    packet_wrapper: &PacketWrapper,
    media_type: Option<MediaType>,
    routing_header: Option<&RoutingHeader>,
) -> (r: Class)
    ensures
        r == class_of(
            *packet_wrapper,
            media_type,
            match routing_header {
                Some(h) => Some(*h),
                None => None,
            },
        ),
{
    match packet_wrapper.packet_type {
        PacketType::Congestion
        | PacketType::SessionAssigned
        | PacketType::SpeakerUpdate
        | PacketType::Meeting
        | PacketType::SubscriptionUpdate
        | PacketType::LayerHint
        | PacketType::AdmissionDecision
        | PacketType::CapabilityAnnounce => Class::P0Control,
        PacketType::Media => {
            match media_type {
                Some(MediaType::Heartbeat)
                | Some(MediaType::Rtt)
                | Some(MediaType::KeyframeRequest) => {
                    return Class::P0Control;
                },
                Some(MediaType::Audio) => {
                    return Class::P1Audio;
                },
                Some(MediaType::Screen) => {
                    return Class::P4Enhancement;
                },
                _ => {},
            }
            match routing_header {
                None => Class::P3VideoBase,
                Some(h) => {
                    if h.is_base_keyframe() {
                        Class::P2Keyframe
                    } else if h.spatial_layer_id == 0 && h.temporal_layer_id == 0 {
                        Class::P3VideoBase
                    } else {
                        Class::P4Enhancement
                    }
                },
            }
        },
        _ => Class::P3VideoBase,
    }
}

/// Says that a queue which never drops was full.
#[derive(Debug, Clone, Copy, PartialEq, Eq, Structural)]
pub struct SendError;

impl SendError {
    /// The error in words.
    pub fn message(&self) -> (r: &'static str)
        ensures
            r@ == "P0 control queue full"@,
    {
        "P0 control queue full"
    }
}

/// What became of an entry that was sent.
#[derive(Debug, Clone, PartialEq, Eq)]
pub enum SendOutcome {
    /// It was queued.
    Sent,
    /// An entry was lost, this one or an older one. The text says which.
    Dropped(Class, &'static str),
    /// The queue never drops and was full: the entry was not queued.
    Refused(SendError),
}

impl SendOutcome {
    /// Whether a packet was lost. A refused packet is.
    pub fn is_loss(&self) -> (r: bool)
        ensures
            r == !(self is Sent),
    {
        match self {
            SendOutcome::Sent => false,
            SendOutcome::Dropped(_, _) => true,
            SendOutcome::Refused(_) => true,
        }
    }
}

/// What a receiver finds.
#[derive(Debug, PartialEq, Eq)]
pub enum RecvPoll {
    /// An entry.
    Ready(Bytes),
    /// Nothing, now or ever: the senders are gone.
    Closed,
    /// Nothing yet.
    Pending,
}

/// The queue of one class, with the number of its senders.
#[derive(Debug)]
pub struct ClassReceiver {
    pub queue: VecDeque<Bytes>,
    pub senders: usize,
    pub class: Class,
}

/// Mathematical view of a [`ClassReceiver`].
#[verifier::ext_equal]
pub struct ClassView {
    pub class: Class,
    pub queue: Seq<Bytes>,
    pub senders: usize,
}

impl View for ClassReceiver {
    type V = ClassView;

    open spec fn view(&self) -> ClassView {
        ClassView { class: self.class, queue: self.queue@, senders: self.senders }
    }
}

impl ClassView {
    /// The queue keeps its bound.
    pub open spec fn wf(self) -> bool {
        self.queue.len() <= self.class.capacity()
    }

    /// The queue after an entry was offered.
    pub open spec fn after_offer(self, bytes: Bytes) -> ClassView {
        if self.queue.len() < self.class.capacity() {
            ClassView { queue: self.queue.push(bytes), ..self }
        } else if self.class.drop_policy() == DropPolicy::TailDropOldest {
            ClassView { queue: self.queue.drop_first().push(bytes), ..self }
        } else {
            self
        }
    }

    /// Whether `outcome` is what is reported of an offer.
    pub open spec fn reports(self, outcome: SendOutcome) -> bool {
        if self.queue.len() < self.class.capacity() {
            outcome is Sent
        } else {
            match self.class.drop_policy() {
                DropPolicy::TailDropOldest => outcome matches SendOutcome::Dropped(c, why) && c
                    == self.class && why@ == "tail_drop_oldest"@,
                DropPolicy::HeadDropOldest => outcome matches SendOutcome::Dropped(c, why) && c
                    == self.class && why@ == "head_drop_new"@,
                DropPolicy::NeverDrop => outcome is Refused,
            }
        }
    }

    /// What a look into the queue finds.
    pub open spec fn found(self) -> RecvPoll {
        if self.queue.len() > 0 {
            RecvPoll::Ready(self.queue[0])
        } else if self.senders == 0 {
            RecvPoll::Closed
        } else {
            RecvPoll::Pending
        }
    }

    /// The queue without its first entry.
    pub open spec fn after_pop(self) -> ClassView {
        if self.queue.len() > 0 {
            ClassView { queue: self.queue.drop_first(), ..self }
        } else {
            self
        }
    }
}

impl ClassReceiver {
    /// The empty queue of a class with one sender.
    fn build_class(class: Class) -> (r: Self)
        ensures
            r@.wf(),
            r@ == (ClassView { class, queue: Seq::empty(), senders: 1 }),
    {
        ClassReceiver { queue: VecDeque::new(), senders: 1, class }
    }

    /// The class of this queue.
    pub fn class(&self) -> (r: Class)
        ensures
            r == self@.class,
    {
        self.class
    }

    /// Queues an entry, or deals with a full queue as the class demands.
    pub fn send(&mut self, bytes: Bytes) -> (r: SendOutcome)
        requires
            old(self)@.wf(),
        ensures
            final(self)@.wf(),
            old(self)@.reports(r),
            final(self)@ == old(self)@.after_offer(bytes),
    {
        let ghost before = self@;
        if self.queue.len() < self.class.capacity() {
            self.queue.push_back(bytes);
            return SendOutcome::Sent;
        }
        match self.class.drop_policy() {
            DropPolicy::TailDropOldest => {
                self.queue.pop_front();
                proof {
                    assert(self.queue@ =~= before.queue.drop_first());
                }
                self.queue.push_back(bytes);
                SendOutcome::Dropped(self.class, "tail_drop_oldest")
            },
            DropPolicy::HeadDropOldest => SendOutcome::Dropped(self.class, "head_drop_new"),
            DropPolicy::NeverDrop => SendOutcome::Refused(SendError),
        }
    }

    /// Takes the first entry, if there is one.
    pub fn try_recv(&mut self) -> (r: Option<Bytes>)
        ensures
            old(self)@.wf() ==> final(self)@.wf(),
            r == if old(self)@.queue.len() > 0 {
                Some(old(self)@.queue[0])
            } else {
                None
            },
            final(self)@ == old(self)@.after_pop(),
    {
        let ghost before = self@;
        let r = self.queue.pop_front();
        proof {
            if before.queue.len() > 0 {
                assert(self.queue@ =~= before.queue.drop_first());
            }
        }
        r
    }

    /// Takes the first entry, or says whether one can still come.
    pub fn recv(&mut self) -> (r: RecvPoll)
        ensures
            old(self)@.wf() ==> final(self)@.wf(),
            r == if old(self)@.queue.len() > 0 {
                RecvPoll::Ready(old(self)@.queue[0])
            } else if old(self)@.senders == 0 {
                RecvPoll::Closed
            } else {
                RecvPoll::Pending
            },
            r == old(self)@.found(),
            final(self)@ == old(self)@.after_pop(),
    {
        match self.try_recv() {
            Some(bytes) => RecvPoll::Ready(bytes),
            None => if self.senders == 0 {
                RecvPoll::Closed
            } else {
                RecvPoll::Pending
            },
        }
    }
}

/// The five queues.
#[derive(Debug)]
pub struct PriorityChannels {
    pub p0_control: ClassReceiver,
    pub p1_audio: ClassReceiver,
    pub p2_keyframe: ClassReceiver,
    pub p3_video_base: ClassReceiver,
    pub p4_enhancement: ClassReceiver,
}

impl View for PriorityChannels {
    type V = Seq<ClassView>;

    /// The queues, highest priority first.
    open spec fn view(&self) -> Seq<ClassView> {
        seq![
            self.p0_control@,
            self.p1_audio@,
            self.p2_keyframe@,
            self.p3_video_base@,
            self.p4_enhancement@,
        ]
    }
}

/// Each queue is that of its class and keeps its bound.
pub open spec fn queues_wf(queues: Seq<ClassView>) -> bool {
    &&& queues.len() == 5
    &&& forall|c: Class|
        (#[trigger] queues[c.index_spec()]).class == c && queues[c.index_spec()].wf()
}

impl PriorityChannels {
    /// The queue of a class.
    pub fn receiver_mut(&mut self, class: Class) -> (r: &mut ClassReceiver)
        ensures
            r@ == old(self)@[class.index_spec()],
            final(self)@ == old(self)@.update(class.index_spec(), final(r)@),
    {
        match class {
            Class::P0Control => &mut self.p0_control,
            Class::P1Audio => &mut self.p1_audio,
            Class::P2Keyframe => &mut self.p2_keyframe,
            Class::P3VideoBase => &mut self.p3_video_base,
            Class::P4Enhancement => &mut self.p4_enhancement,
        }
    }
}

/// A producer for the five queues. The queues count their producers; one that is
/// done is released.
#[derive(Debug)]
pub struct PrioritySender {}

/// The queues with `n` producers each.
pub open spec fn with_senders(queues: Seq<ClassView>, delta: int) -> Seq<ClassView> {
    queues.map_values(|q: ClassView| ClassView { senders: (q.senders + delta) as usize, ..q })
}

impl PrioritySender {
    /// Five empty queues and their first producer.
    pub fn new() -> (r: (Self, PriorityChannels))
        ensures
            queues_wf(r.1@),
            forall|i: int|
                0 <= i < 5 ==> (#[trigger] r.1@[i]).queue.len() == 0 && r.1@[i].senders == 1,
    {
        let channels = PriorityChannels {
            p0_control: ClassReceiver::build_class(Class::P0Control),
            p1_audio: ClassReceiver::build_class(Class::P1Audio),
            p2_keyframe: ClassReceiver::build_class(Class::P2Keyframe),
            p3_video_base: ClassReceiver::build_class(Class::P3VideoBase),
            p4_enhancement: ClassReceiver::build_class(Class::P4Enhancement),
        };
        (PrioritySender {  }, channels)
    }

    /// Queues an entry in its class.
    pub fn send(&self, channels: &mut PriorityChannels, class: Class, bytes: Bytes) -> (r:
        SendOutcome)
        requires
            queues_wf(old(channels)@),
        ensures
            queues_wf(final(channels)@),
            old(channels)@[class.index_spec()].reports(r),
            final(channels)@ == old(channels)@.update(
                class.index_spec(),
                old(channels)@[class.index_spec()].after_offer(bytes),
            ),
    {
        let ghost before = channels@;
        proof {
            assert(before[class.index_spec()].wf());
        }
        let r = channels.receiver_mut(class).send(bytes);
        proof {
            assert forall|c: Class|
                (#[trigger] channels@[c.index_spec()]).class == c
                    && channels@[c.index_spec()].wf() by {
                assert(before[c.index_spec()].class == c);
            }
        }
        r
    }

    /// Another producer for the same queues.
    pub fn share(&self, channels: &mut PriorityChannels) -> (r: PrioritySender)
        requires
            queues_wf(old(channels)@),
            forall|i: int| 0 <= i < 5 ==> (#[trigger] old(channels)@[i]).senders < usize::MAX,
        ensures
            queues_wf(final(channels)@),
            final(channels)@ == with_senders(old(channels)@, 1),
    {
        let ghost before = channels@;
        proof {
            assert(before[0].senders < usize::MAX && before[1].senders < usize::MAX
                && before[2].senders < usize::MAX && before[3].senders < usize::MAX
                && before[4].senders < usize::MAX);
        }
        channels.p0_control.senders = channels.p0_control.senders + 1;
        channels.p1_audio.senders = channels.p1_audio.senders + 1;
        channels.p2_keyframe.senders = channels.p2_keyframe.senders + 1;
        channels.p3_video_base.senders = channels.p3_video_base.senders + 1;
        channels.p4_enhancement.senders = channels.p4_enhancement.senders + 1;
        proof {
            assert(channels@ =~= with_senders(before, 1));
            assert forall|c: Class|
                (#[trigger] channels@[c.index_spec()]).class == c
                    && channels@[c.index_spec()].wf() by {
                assert(before[c.index_spec()].class == c);
            }
        }
        PrioritySender {  }
    }

    /// Ends a producer.
    pub fn release(self, channels: &mut PriorityChannels)
        requires
            queues_wf(old(channels)@),
            forall|i: int| 0 <= i < 5 ==> (#[trigger] old(channels)@[i]).senders > 0,
        ensures
            queues_wf(final(channels)@),
            final(channels)@ == with_senders(old(channels)@, -1),
    {
        let ghost before = channels@;
        proof {
            assert(before[0].senders > 0 && before[1].senders > 0 && before[2].senders > 0
                && before[3].senders > 0 && before[4].senders > 0);
        }
        channels.p0_control.senders = channels.p0_control.senders - 1;
        channels.p1_audio.senders = channels.p1_audio.senders - 1;
        channels.p2_keyframe.senders = channels.p2_keyframe.senders - 1;
        channels.p3_video_base.senders = channels.p3_video_base.senders - 1;
        channels.p4_enhancement.senders = channels.p4_enhancement.senders - 1;
        proof {
            assert(channels@ =~= with_senders(before, -1));
            assert forall|c: Class|
                (#[trigger] channels@[c.index_spec()]).class == c
                    && channels@[c.index_spec()].wf() by {
                assert(before[c.index_spec()].class == c);
            }
        }
    }
}

/// How many packets a class may send in a row before it waits for the others.
pub const FAIRNESS_QUANTUM: u8 = 8;

/// The first class from `from` on that has a packet and has not used up its
/// quantum; 5 if there is none.
pub open spec fn ready_class(counts: Seq<u8>, loaded: Seq<bool>, from: int) -> int
    decreases 5 - from,
{
    if from >= 5 {
        5
    } else if counts[from] < FAIRNESS_QUANTUM && loaded[from] {
        from
    } else {
        ready_class(counts, loaded, from + 1)
    }
}

/// The counts after a pass that served class `served`, or none for 5: the classes
/// before it that were found empty start over, and it has sent one more.
pub open spec fn counts_after_pass(counts: Seq<u8>, served: int) -> Seq<u8> {
    Seq::new(
        5,
        |i: int|
            if i < served {
                if counts[i] < FAIRNESS_QUANTUM {
                    0u8
                } else {
                    counts[i]
                }
            } else if i == served {
                (counts[i] + 1) as u8
            } else {
                counts[i]
            },
    )
}

/// All counts zero.
pub open spec fn fresh_counts() -> Seq<u8> {
    Seq::new(5, |i: int| 0u8)
}

/// The class that is served next, or 5, and the counts after it. Where no class
/// with packets has quantum left, a new cycle begins.
pub open spec fn serve(counts: Seq<u8>, loaded: Seq<bool>) -> (int, Seq<u8>) {
    let i = ready_class(counts, loaded, 0);
    if i < 5 {
        (i, counts_after_pass(counts, i))
    } else {
        let j = ready_class(fresh_counts(), loaded, 0);
        if j < 5 {
            (j, counts_after_pass(fresh_counts(), j))
        } else {
            (5, fresh_counts())
        }
    }
}

/// Which queues hold packets.
pub open spec fn loaded_queues(queues: Seq<ClassView>) -> Seq<bool> {
    queues.map_values(|q: ClassView| q.queue.len() > 0)
}

/// The single consumer of the five queues.
#[derive(Debug)]
pub struct PriorityReceiver {
    pub channels: PriorityChannels,
    /// Packets each class has sent in the present cycle.
    pub drain_count_by_class: [u8; 5],
    /// The classes that were found empty with all producers gone.
    pub closed: [bool; 5],
}

/// Mathematical view of a [`PriorityReceiver`].
#[verifier::ext_equal]
pub struct ReceiverView {
    pub queues: Seq<ClassView>,
    pub counts: Seq<u8>,
    pub closed: Seq<bool>,
}

impl View for PriorityReceiver {
    type V = ReceiverView;

    open spec fn view(&self) -> ReceiverView {
        ReceiverView {
            queues: self.channels@,
            counts: self.drain_count_by_class@,
            closed: self.closed@,
        }
    }
}

impl ReceiverView {
    /// The queues are in order and no class has sent more than its quantum.
    pub open spec fn wf(self) -> bool {
        &&& queues_wf(self.queues)
        &&& self.counts.len() == 5
        &&& self.closed.len() == 5
        &&& forall|i: int| 0 <= i < 5 ==> #[trigger] self.counts[i] <= FAIRNESS_QUANTUM
    }

    /// The class that is served next, 5 if all queues are empty.
    pub open spec fn next_class(self) -> int {
        serve(self.counts, loaded_queues(self.queues)).0
    }

    /// The classes that will send nothing any more, once all queues are empty.
    pub open spec fn next_closed(self) -> Seq<bool> {
        Seq::new(5, |i: int| self.closed[i] || self.queues[i].senders == 0)
    }

    /// What the consumer finds.
    pub open spec fn found(self) -> RecvPoll {
        let i = self.next_class();
        if i < 5 {
            RecvPoll::Ready(self.queues[i].queue[0])
        } else if forall|k: int| 0 <= k < 5 ==> #[trigger] self.next_closed()[k] {
            RecvPoll::Closed
        } else {
            RecvPoll::Pending
        }
    }

    /// The state after the consumer looked.
    pub open spec fn after_recv(self) -> ReceiverView {
        let (i, counts) = serve(self.counts, loaded_queues(self.queues));
        if i < 5 {
            ReceiverView {
                queues: self.queues.update(i, self.queues[i].after_pop()),
                counts,
                ..self
            }
        } else {
            ReceiverView { counts, closed: self.next_closed(), ..self }
        }
    }
}

/// Which class is ready, said without recursion.
proof fn lemma_ready_class(counts: Seq<u8>, loaded: Seq<bool>, from: int)
    requires
        0 <= from <= 5,
    ensures
        ({
            let r = ready_class(counts, loaded, from);
            &&& from <= r <= 5
            &&& r < 5 ==> counts[r] < FAIRNESS_QUANTUM && loaded[r]
            &&& forall|k: int|
                from <= k < r ==> !(#[trigger] counts[k] < FAIRNESS_QUANTUM && loaded[k])
        }),
    decreases 5 - from,
{
    if from < 5 && !(counts[from] < FAIRNESS_QUANTUM && loaded[from]) {
        lemma_ready_class(counts, loaded, from + 1);
    }
}

impl PriorityReceiver {
    /// A consumer of the given queues.
    pub fn new(channels: PriorityChannels) -> (r: Self)
        requires
            queues_wf(channels@),
        ensures
            r@.wf(),
            r@ == (ReceiverView {
                queues: channels@,
                counts: fresh_counts(),
                closed: Seq::new(5, |i: int| false),
            }),
    {
        let r = PriorityReceiver {
            channels,
            drain_count_by_class: [0, 0, 0, 0, 0],
            closed: [false, false, false, false, false],
        };
        proof {
            assert(r@.counts =~= fresh_counts());
            assert(r@.closed =~= Seq::new(5, |i: int| false));
        }
        r
    }

    /// Takes the first packet of the queue at a position.
    fn try_recv_class(&mut self, class_idx: usize) -> (r: Option<Bytes>)
        requires
            old(self)@.wf(),
            class_idx < 5,
        ensures
            final(self)@.wf(),
            r == if old(self)@.queues[class_idx as int].queue.len() > 0 {
                Some(old(self)@.queues[class_idx as int].queue[0])
            } else {
                None
            },
            final(self)@ == (ReceiverView {
                queues: old(self)@.queues.update(
                    class_idx as int,
                    old(self)@.queues[class_idx as int].after_pop(),
                ),
                ..old(self)@
            }),
    {
        let ghost before = self@;
        let class = if class_idx == 0 {
            Class::P0Control
        } else if class_idx == 1 {
            Class::P1Audio
        } else if class_idx == 2 {
            Class::P2Keyframe
        } else if class_idx == 3 {
            Class::P3VideoBase
        } else {
            Class::P4Enhancement
        };
        let r = self.channels.receiver_mut(class).try_recv();
        proof {
            assert forall|c: Class|
                (#[trigger] self@.queues[c.index_spec()]).class == c
                    && self@.queues[c.index_spec()].wf() by {
                assert(before.queues[c.index_spec()].class == c);
            }
        }
        r
    }

    /// One pass over the classes by priority: serves the first that has a packet
    /// and quantum left. Classes found empty on the way start over.
    fn poll_priority(&mut self) -> (r: Option<Bytes>)
        requires
            old(self)@.wf(),
        ensures
            final(self)@.wf(),
            ({
                let before = old(self)@;
                let i = ready_class(before.counts, loaded_queues(before.queues), 0);
                &&& r == if i < 5 {
                    Some(before.queues[i].queue[0])
                } else {
                    None
                }
                &&& final(self)@ == (ReceiverView {
                    queues: if i < 5 {
                        before.queues.update(i, before.queues[i].after_pop())
                    } else {
                        before.queues
                    },
                    counts: counts_after_pass(before.counts, i),
                    ..before
                })
            }),
    {
        let ghost before = self@;
        let ghost loaded = loaded_queues(before.queues);
        let mut i: usize = 0;
        while i < 5
            invariant
                i <= 5,
                before == old(self)@,
                before.wf(),
                loaded == loaded_queues(before.queues),
                self@.wf(),
                self@.queues == before.queues,
                self@.closed == before.closed,
                ready_class(before.counts, loaded, 0) == ready_class(before.counts, loaded, i as int),
                forall|k: int|
                    0 <= k < 5 ==> #[trigger] self@.counts[k] == if k < i && before.counts[k]
                        < FAIRNESS_QUANTUM {
                        0u8
                    } else {
                        before.counts[k]
                    },
            decreases 5 - i,
        {
            if self.drain_count_by_class[i] < FAIRNESS_QUANTUM {
                proof {
                    assert(self@.counts[i as int] == before.counts[i as int]);
                }
                match self.try_recv_class(i) {
                    Some(bytes) => {
                        proof {
                            assert(loaded[i as int]);
                            assert(ready_class(before.counts, loaded, i as int) == i);
                        }
                        let count: u8 = self.drain_count_by_class[i];
                        self.drain_count_by_class[i] = count + 1;
                        proof {
                            assert(self@.counts =~= counts_after_pass(before.counts, i as int));
                        }
                        return Some(bytes);
                    },
                    None => {
                        self.drain_count_by_class[i] = 0;
                        proof {
                            assert(self@.queues =~= before.queues);
                        }
                    },
                }
            }
            i = i + 1;
        }
        proof {
            assert(self@.counts =~= counts_after_pass(before.counts, 5));
        }
        None
    }

    /// Takes the next packet to send, or says whether one can still come.
    ///
    /// The highest class with packets goes first, unless it has sent
    /// [`FAIRNESS_QUANTUM`] packets since the others had their turn.
    pub fn recv(&mut self) -> (r: RecvPoll)
        requires
            old(self)@.wf(),
        ensures
            final(self)@.wf(),
            r == old(self)@.found(),
            final(self)@ == old(self)@.after_recv(),
    {
        let ghost before = self@;
        let ghost loaded = loaded_queues(before.queues);
        proof {
            lemma_ready_class(before.counts, loaded, 0);
            lemma_ready_class(fresh_counts(), loaded, 0);
        }
        match self.poll_priority() {
            Some(bytes) => {
                return RecvPoll::Ready(bytes);
            },
            None => {},
        }
        self.drain_count_by_class = [0, 0, 0, 0, 0];
        proof {
            assert(self@.counts =~= fresh_counts());
        }
        match self.poll_priority() {
            Some(bytes) => {
                return RecvPoll::Ready(bytes);
            },
            None => {},
        }
        proof {
            assert(self@.counts =~= fresh_counts());
        }
        let c0: bool = self.closed[0] || self.channels.p0_control.senders == 0;
        let c1: bool = self.closed[1] || self.channels.p1_audio.senders == 0;
        let c2: bool = self.closed[2] || self.channels.p2_keyframe.senders == 0;
        let c3: bool = self.closed[3] || self.channels.p3_video_base.senders == 0;
        let c4: bool = self.closed[4] || self.channels.p4_enhancement.senders == 0;
        self.closed = [c0, c1, c2, c3, c4];
        proof {
            assert(self@.closed =~= before.next_closed());
            let all = before.next_closed();
            assert((forall|k: int| 0 <= k < 5 ==> #[trigger] all[k]) <==> (all[0] && all[1]
                && all[2] && all[3] && all[4]));
        }
        if c0 && c1 && c2 && c3 && c4 {
            RecvPoll::Closed
        } else {
            RecvPoll::Pending
        }
    }
}

/// A queue never grows beyond its capacity.
pub proof fn law_queue_stays_bounded(queue: ClassView, bytes: Bytes)
    requires
        queue.wf(),
    ensures
        queue.after_offer(bytes).wf(),
        queue.after_pop().wf(),
{
}

/// Each class loses what its policy says: control loses nothing it has queued,
/// enhancement keeps what is queued and drops the newcomer, the others drop their
/// oldest entry and queue the newcomer last.
pub proof fn law_full_queue_follows_policy(queue: ClassView, bytes: Bytes)
    requires
        queue.queue.len() == queue.class.capacity(),
    ensures
        queue.class == Class::P0Control || queue.class == Class::P4Enhancement
            ==> queue.after_offer(bytes) == queue,
        queue.class != Class::P0Control && queue.class != Class::P4Enhancement ==> {
            &&& queue.after_offer(bytes).queue.len() == queue.queue.len()
            &&& queue.after_offer(bytes).queue.last() == bytes
            &&& queue.after_offer(bytes).queue.drop_last() == queue.queue.drop_first()
        },
{
    if queue.class != Class::P0Control && queue.class != Class::P4Enhancement {
        assert(queue.after_offer(bytes).queue.drop_last() =~= queue.queue.drop_first());
    }
}

/// While any queue holds a packet, the consumer finds one: the first of the queue
/// that it serves, and no other queue changes.
pub proof fn law_consumer_makes_progress(r: ReceiverView, i: int)
    requires
        r.wf(),
        0 <= i < 5,
        r.queues[i].queue.len() > 0,
    ensures
        ({
            let j = r.next_class();
            &&& 0 <= j < 5
            &&& r.queues[j].queue.len() > 0
            &&& r.found() == RecvPoll::Ready(r.queues[j].queue[0])
            &&& r.after_recv().queues == r.queues.update(j, r.queues[j].after_pop())
        }),
{
    let loaded = loaded_queues(r.queues);
    lemma_ready_class(r.counts, loaded, 0);
    lemma_ready_class(fresh_counts(), loaded, 0);
    assert(loaded[i]);
    assert(fresh_counts()[i] < FAIRNESS_QUANTUM);
}

/// The consumer ends only when every queue is empty and every producer is gone.
pub proof fn law_consumer_ends_last(r: ReceiverView, i: int)
    requires
        r.wf(),
        0 <= i < 5,
        r.found() == RecvPoll::Closed,
    ensures
        r.queues[i].queue.len() == 0,
        r.queues[i].senders == 0 || r.closed[i],
{
    if r.queues[i].queue.len() > 0 {
        law_consumer_makes_progress(r, i);
    }
    assert(r.next_closed()[i]);
}

/// Strict priority: a class goes before a higher one that has packets only if
/// that one has used up its quantum.
pub proof fn law_strict_priority_within_quantum(r: ReceiverView, i: int)
    requires
        r.wf(),
        0 <= i < r.next_class() < 5,
        r.queues[i].queue.len() > 0,
    ensures
        r.counts[i] == FAIRNESS_QUANTUM,
{
    let loaded = loaded_queues(r.queues);
    lemma_ready_class(r.counts, loaded, 0);
    lemma_ready_class(fresh_counts(), loaded, 0);
    assert(loaded[i]);
    assert(fresh_counts()[i] < FAIRNESS_QUANTUM);
    assert(r.counts[i] <= FAIRNESS_QUANTUM);
}

/// How often each class is served in `n` turns, and the counts after them, while
/// the same queues hold packets all along.
pub open spec fn served_in(counts: Seq<u8>, loaded: Seq<bool>, n: nat) -> (Seq<nat>, Seq<u8>)
    decreases n,
{
    if n == 0 {
        (Seq::new(5, |i: int| 0nat), counts)
    } else {
        let (tally, c) = served_in(counts, loaded, (n - 1) as nat);
        let (i, next) = serve(c, loaded);
        (
            if i < 5 {
                tally.update(i, tally[i] + 1)
            } else {
                tally
            },
            next,
        )
    }
}

/// How many of the five queues hold packets.
pub open spec fn load_count(loaded: Seq<bool>) -> nat {
    let one = |b: bool| if b {
        1nat
    } else {
        0nat
    };
    one(loaded[0]) + one(loaded[1]) + one(loaded[2]) + one(loaded[3]) + one(loaded[4])
}

/// Within a cycle the counts are the tallies.
proof fn lemma_cycle(loaded: Seq<bool>, n: nat)
    requires
        loaded.len() == 5,
        n <= 8 * load_count(loaded),
    ensures
        ({
            let (tally, counts) = served_in(fresh_counts(), loaded, n);
            &&& tally.len() == 5
            &&& counts.len() == 5
            &&& tally[0] + tally[1] + tally[2] + tally[3] + tally[4] == n
            &&& forall|i: int|
                0 <= i < 5 ==> #[trigger] counts[i] == tally[i] && counts[i] <= 8 && (!loaded[i]
                    ==> counts[i] == 0)
        }),
    decreases n,
{
    if n > 0 {
        lemma_cycle(loaded, (n - 1) as nat);
        let (tally, counts) = served_in(fresh_counts(), loaded, (n - 1) as nat);
        lemma_ready_class(counts, loaded, 0);
        let i = ready_class(counts, loaded, 0);
        if i == 5 {
            assert(!(counts[0] < FAIRNESS_QUANTUM && loaded[0]));
            assert(!(counts[1] < FAIRNESS_QUANTUM && loaded[1]));
            assert(!(counts[2] < FAIRNESS_QUANTUM && loaded[2]));
            assert(!(counts[3] < FAIRNESS_QUANTUM && loaded[3]));
            assert(!(counts[4] < FAIRNESS_QUANTUM && loaded[4]));
            assert(counts[0] == tally[0]);
            assert(counts[1] == tally[1]);
            assert(counts[2] == tally[2]);
            assert(counts[3] == tally[3]);
            assert(counts[4] == tally[4]);
            assert(false);
        }
        let next = counts_after_pass(counts, i);
        assert forall|k: int| 0 <= k < 5 implies #[trigger] next[k] == tally.update(
            i,
            tally[i] + 1,
        )[k] && next[k] <= 8 && (!loaded[k] ==> next[k] == 0) by {
            assert(counts[k] == tally[k]);
        }
    }
}

/// Nobody starves: over a full cycle of turns each class that has packets all
/// along is served exactly its quantum, and a new cycle begins then.
pub proof fn law_every_loaded_class_gets_its_quantum(loaded: Seq<bool>, i: int)
    requires
        loaded.len() == 5,
        0 <= i < 5,
    ensures
        ({
            let (tally, counts) = served_in(fresh_counts(), loaded, 8 * load_count(loaded));
            &&& tally[i] == if loaded[i] {
                8nat
            } else {
                0nat
            }
            &&& serve(counts, loaded) == serve(fresh_counts(), loaded)
        }),
{
    let n = 8 * load_count(loaded);
    lemma_cycle(loaded, n);
    let (tally, counts) = served_in(fresh_counts(), loaded, n);
    assert(counts[0] == tally[0]);
    assert(counts[1] == tally[1]);
    assert(counts[2] == tally[2]);
    assert(counts[3] == tally[3]);
    assert(counts[4] == tally[4]);
    lemma_ready_class(counts, loaded, 0);
    lemma_ready_class(fresh_counts(), loaded, 0);
    let r = ready_class(counts, loaded, 0);
    if r < 5 {
        assert(counts[r] == tally[r]);
        assert(false);
    }
    assert(fresh_counts()[0] < FAIRNESS_QUANTUM);
    let j = ready_class(fresh_counts(), loaded, 0);
    if j == 5 {
        assert(serve(counts, loaded) == (5int, fresh_counts()));
    }
}

/// What each class is for, said from the class. Control holds the control packets and
/// the heartbeats, round-trip probes and keyframe requests among the media; audio the
/// audio; keyframes the keyframes of the base layer; enhancement the screen media and
/// every frame above the base layer. All the rest is base-layer video.
pub proof fn law_what_each_class_holds(
    packet: PacketWrapper,
    media_type: Option<MediaType>,
    header: Option<RoutingHeader>,
)
    ensures
        ({
            let class = class_of(packet, media_type, header);
            let kind = packet.packet_type;
            let media = kind == PacketType::Media;
            let probe = media_type == Some(MediaType::Heartbeat) || media_type == Some(
                MediaType::Rtt,
            ) || media_type == Some(MediaType::KeyframeRequest);
            let audio = media_type == Some(MediaType::Audio);
            let screen = media_type == Some(MediaType::Screen);
            let base = header matches Some(h) && h.temporal_layer_id == 0 && h.spatial_layer_id
                == 0;
            &&& class == Class::P0Control <==> {
                ||| kind == PacketType::Congestion || kind == PacketType::SessionAssigned
                ||| kind == PacketType::SpeakerUpdate || kind == PacketType::Meeting
                ||| kind == PacketType::SubscriptionUpdate || kind == PacketType::LayerHint
                ||| kind == PacketType::AdmissionDecision
                ||| kind == PacketType::CapabilityAnnounce
                ||| media && probe
            }
            &&& class == Class::P1Audio <==> media && audio
            &&& class == Class::P2Keyframe <==> media && !probe && !audio && !screen && base
                && header->0.is_keyframe
            &&& class == Class::P4Enhancement <==> media && (screen || !probe && !audio && header
                is Some && !base)
            &&& class == Class::P3VideoBase <== !media && (kind == PacketType::Unknown || kind
                == PacketType::RsaPubKey || kind == PacketType::AesKey || kind
                == PacketType::Connection || kind == PacketType::Diagnostics || kind
                == PacketType::Health || kind == PacketType::HealthBeacon)
        }),
{
}

/// What becomes of an offer, by class. While a queue has a place free the entry is
/// queued last and reported as sent. A full control queue refuses it, a full
/// enhancement queue drops it, and a full queue of another class drops its first
/// entry for it. Control holds 32 entries, audio and keyframes 128, video 256.
pub proof fn law_offer_by_class(queue: ClassView, bytes: Bytes, outcome: SendOutcome)
    requires
        queue.reports(outcome),
    ensures
        ({
            let after = queue.after_offer(bytes);
            let n = queue.queue.len();
            let full = match queue.class {
                Class::P0Control => n >= 32,
                Class::P1Audio => n >= 128,
                Class::P2Keyframe => n >= 128,
                Class::P3VideoBase => n >= 256,
                Class::P4Enhancement => n >= 256,
            };
            &&& after.class == queue.class && after.senders == queue.senders
            &&& !full ==> after.queue == queue.queue.push(bytes) && outcome is Sent
            &&& full && queue.class == Class::P0Control ==> after.queue == queue.queue && outcome
                is Refused
            &&& full && queue.class == Class::P4Enhancement ==> {
                &&& after.queue == queue.queue
                &&& outcome matches SendOutcome::Dropped(c, why) && c == Class::P4Enhancement
                    && why@ == "head_drop_new"@
            }
            &&& full && queue.class != Class::P0Control && queue.class != Class::P4Enhancement ==> {
                &&& after.queue == queue.queue.drop_first().push(bytes)
                &&& outcome matches SendOutcome::Dropped(c, why) && c == queue.class && why@
                    == "tail_drop_oldest"@
            }
        }),
{
}

/// Entries leave in the order in which they came: what is offered to a queue that has
/// a place free leaves it after everything that was there, and a look takes the first.
pub proof fn law_first_in_first_out(queue: ClassView, bytes: Bytes)
    requires
        queue.queue.len() < queue.class.capacity(),
    ensures
        ({
            let after = queue.after_offer(bytes);
            &&& queue.queue.len() == 0 ==> after.queue[0] == bytes && after.after_pop().queue.len()
                == 0
            &&& queue.queue.len() > 0 ==> {
                &&& after.queue[0] == queue.queue[0]
                &&& after.after_pop().queue == queue.after_pop().queue.push(bytes)
                &&& queue.after_pop().queue.len() == queue.queue.len() - 1
            }
        }),
{
    if queue.queue.len() > 0 {
        assert(queue.after_offer(bytes).after_pop().queue =~= queue.after_pop().queue.push(bytes));
    }
}

/// Which class the consumer serves: the highest one that has packets and has sent
/// fewer than eight in a row; and if all that have packets have sent eight, the
/// highest of those. With all queues empty it serves none.
pub proof fn law_which_class_is_served(r: ReceiverView, i: int)
    requires
        r.wf(),
        0 <= i < 5,
    ensures
        ({
            let first = r.queues[i].queue.len() > 0 && r.counts[i] < 8 && forall|j: int|
                0 <= j < i && (#[trigger] r.queues[j]).queue.len() > 0 ==> r.counts[j] >= 8;
            let none_left = forall|j: int|
                0 <= j < 5 && (#[trigger] r.queues[j]).queue.len() > 0 ==> r.counts[j] >= 8;
            let highest = r.queues[i].queue.len() > 0 && forall|j: int|
                0 <= j < i ==> (#[trigger] r.queues[j]).queue.len() == 0;
            r.next_class() == i <==> first || none_left && highest
        }),
        (forall|j: int| 0 <= j < 5 ==> (#[trigger] r.queues[j]).queue.len() == 0)
            ==> r.next_class() == 5,
{
    let loaded = loaded_queues(r.queues);
    let a = ready_class(r.counts, loaded, 0);
    let b = ready_class(fresh_counts(), loaded, 0);
    lemma_ready_class(r.counts, loaded, 0);
    lemma_ready_class(fresh_counts(), loaded, 0);
    assert forall|j: int| 0 <= j < 5 implies loaded[j] == ((#[trigger] r.queues[j]).queue.len()
        > 0) by {}
    assert forall|j: int| 0 <= j < a implies (#[trigger] r.queues[j]).queue.len() == 0
        || r.counts[j] >= 8 by {
        assert(!(r.counts[j] < FAIRNESS_QUANTUM && loaded[j]));
    }
    assert forall|j: int| 0 <= j < b implies (#[trigger] r.queues[j]).queue.len() == 0 by {
        assert(!(fresh_counts()[j] < FAIRNESS_QUANTUM && loaded[j]));
    }
    if a < 5 {
        assert(r.queues[a].queue.len() > 0);
    } else if b < 5 {
        assert(r.queues[b].queue.len() > 0);
    }
    if i < a {
        assert(r.queues[i].queue.len() == 0 || r.counts[i] >= 8);
    }
    if i < b {
        assert(r.queues[i].queue.len() == 0);
    }
}

/// How a turn is counted: one more for the class that is served. A class above it that
/// had packets to spare in its count but none in its queue starts over. Where every
/// class that has packets had used up its eight, all start over first. Where nothing
/// is served, all start over.
pub proof fn law_how_turns_are_counted(r: ReceiverView, i: int)
    requires
        r.wf(),
        0 <= i < 5,
    ensures
        ({
            let served = r.next_class();
            let after = r.after_recv();
            let new_cycle = forall|j: int|
                0 <= j < 5 && (#[trigger] r.queues[j]).queue.len() > 0 ==> r.counts[j] >= 8;
            &&& new_cycle && i == served ==> after.counts[i] == 1
            &&& new_cycle && i != served ==> after.counts[i] == 0
            &&& !new_cycle && i == served ==> after.counts[i] == r.counts[i] + 1
            &&& !new_cycle && i > served ==> after.counts[i] == r.counts[i]
            &&& !new_cycle && i < served && r.counts[i] < 8 ==> after.counts[i] == 0
            &&& !new_cycle && i < served && r.counts[i] >= 8 ==> after.counts[i] == r.counts[i]
            &&& i != served ==> after.queues[i] == r.queues[i]
            &&& i == served ==> after.queues[i].queue == r.queues[i].queue.drop_first()
            &&& after.queues[i].senders == r.queues[i].senders
        }),
{
    let loaded = loaded_queues(r.queues);
    let a = ready_class(r.counts, loaded, 0);
    let b = ready_class(fresh_counts(), loaded, 0);
    lemma_ready_class(r.counts, loaded, 0);
    lemma_ready_class(fresh_counts(), loaded, 0);
    assert forall|j: int| 0 <= j < 5 implies loaded[j] == ((#[trigger] r.queues[j]).queue.len()
        > 0) by {}
    assert forall|j: int| 0 <= j < a implies (#[trigger] r.queues[j]).queue.len() == 0
        || r.counts[j] >= 8 by {
        assert(!(r.counts[j] < FAIRNESS_QUANTUM && loaded[j]));
    }
    if a < 5 {
        assert(r.queues[a].queue.len() > 0);
    }
    assert(r.counts[i] <= FAIRNESS_QUANTUM);
}

/// What the consumer finds when every queue is empty: the end if each class has lost
/// its producers, now or before, and nothing yet otherwise.
pub proof fn law_end_comes_with_the_last_producer(r: ReceiverView)
    requires
        r.wf(),
        forall|j: int| 0 <= j < 5 ==> (#[trigger] r.queues[j]).queue.len() == 0,
    ensures
        (forall|j: int| 0 <= j < 5 ==> (#[trigger] r.queues[j]).senders == 0 || r.closed[j])
            ==> r.found() == RecvPoll::Closed,
        (exists|j: int| 0 <= j < 5 && (#[trigger] r.queues[j]).senders > 0 && !r.closed[j])
            ==> r.found() == RecvPoll::Pending,
        forall|j: int|
            0 <= j < 5 ==> #[trigger] r.after_recv().closed[j] == (r.closed[j]
                || r.queues[j].senders == 0),
{
    law_which_class_is_served(r, 0);
    assert(r.next_class() == 5);
    let all = r.next_closed();
    if exists|j: int| 0 <= j < 5 && (#[trigger] r.queues[j]).senders > 0 && !r.closed[j] {
        let j = choose|j: int| 0 <= j < 5 && (#[trigger] r.queues[j]).senders > 0 && !r.closed[j];
        assert(!all[j]);
    }
    if forall|j: int| 0 <= j < 5 ==> (#[trigger] r.queues[j]).senders == 0 || r.closed[j] {
        assert forall|k: int| 0 <= k < 5 implies #[trigger] all[k] by {
            assert(r.queues[k].senders == 0 || r.closed[k]);
        }
    }
}

/// Sharing adds a producer to every queue and releasing one takes it away again.
pub proof fn law_release_undoes_share(queues: Seq<ClassView>)
    requires
        forall|i: int| 0 <= i < queues.len() ==> (#[trigger] queues[i]).senders < usize::MAX,
    ensures
        with_senders(with_senders(queues, 1), -1) == queues,
        forall|i: int|
            0 <= i < queues.len() ==> (#[trigger] with_senders(queues, 1)[i]).senders
                == queues[i].senders + 1 && with_senders(queues, 1)[i].queue == queues[i].queue,
{
    assert(with_senders(with_senders(queues, 1), -1) =~= queues);
}

/// The names of two different classes differ.
pub proof fn law_class_names_are_distinct(a: Class, b: Class)
    ensures
        a.label_spec() == b.label_spec() ==> a == b,
{
    reveal_strlit("P0Control");
    reveal_strlit("P1Audio");
    reveal_strlit("P2Keyframe");
    reveal_strlit("P3VideoBase");
    reveal_strlit("P4Enhancement");
    assert(a.label_spec()[1] == b.label_spec()[1] ==> a == b);
}

/// A queue is never found closed while it holds an entry or has a producer, and what is
/// found ready is its first entry, which is then gone.
pub proof fn law_queue_closes_last(queue: ClassView)
    ensures
        queue.found() == RecvPoll::Closed <==> queue.queue.len() == 0 && queue.senders == 0,
        queue.found() == RecvPoll::Pending <==> queue.queue.len() == 0 && queue.senders > 0,
        queue.found() matches RecvPoll::Ready(b) ==> {
            &&& queue.queue.len() > 0
            &&& queue.queue == seq![b] + queue.after_pop().queue
        },
        queue.after_pop().senders == queue.senders,
        queue.after_pop().class == queue.class,
{
    if queue.queue.len() > 0 {
        assert(queue.queue =~= seq![queue.queue[0]] + queue.after_pop().queue);
    }
}

/// The five queues stand in the order of their classes, and each keeps its bound.
pub proof fn law_each_class_has_its_queue(queues: Seq<ClassView>)
    requires
        queues_wf(queues),
    ensures
        queues.len() == 5,
        queues[0].class == Class::P0Control && queues[0].queue.len() <= 32,
        queues[1].class == Class::P1Audio && queues[1].queue.len() <= 128,
        queues[2].class == Class::P2Keyframe && queues[2].queue.len() <= 128,
        queues[3].class == Class::P3VideoBase && queues[3].queue.len() <= 256,
        queues[4].class == Class::P4Enhancement && queues[4].queue.len() <= 256,
{
    assert(queues[Class::P0Control.index_spec()].wf());
    assert(queues[Class::P1Audio.index_spec()].wf());
    assert(queues[Class::P2Keyframe.index_spec()].wf());
    assert(queues[Class::P3VideoBase.index_spec()].wf());
    assert(queues[Class::P4Enhancement.index_spec()].wf());
}

} // verus!
