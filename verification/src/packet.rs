//! The fields of wire packets that routing decisions read.
//!
//! Packets are decoded before they reach this crate. An enum value that a
//! decoder does not know is its `Unknown` variant here.
use crate::float32::Float32;
use crate::ids::SessionId;

use vstd::prelude::*;

verus! {

/// Kind of a packet wrapper.
#[derive(Debug, Clone, Copy, PartialEq, Eq, Structural)]
pub enum PacketType {
    Unknown,
    RsaPubKey,
    AesKey,
    Media,
    Connection,
    Diagnostics,
    Health,
    Meeting,
    SessionAssigned,
    Congestion,
    SubscriptionUpdate,
    SpeakerUpdate,
    LayerHint,
    AdmissionDecision,
    CapabilityAnnounce,
    HealthBeacon,
}

/// Kind of a media packet inside a wrapper.
#[derive(Debug, Clone, Copy, PartialEq, Eq, Structural)]
pub enum MediaType {
    Unknown,
    Video,
    Audio,
    Screen,
    Heartbeat,
    Rtt,
    KeyframeRequest,
}

/// Outer envelope of a packet: what it carries and who sent it.
#[derive(Debug, Clone, Copy, PartialEq, Eq, Structural)]
pub struct PacketWrapper {
    pub packet_type: PacketType,
    pub session_id: SessionId,
}

/// Layer coordinates of one video frame.
#[derive(Debug, Clone, Copy, PartialEq, Eq, Structural)]
pub struct RoutingHeader {
    pub is_keyframe: bool,
    pub temporal_layer_id: u32,
    pub spatial_layer_id: u32,
    pub picture_id: u64,
    /// The frame's marker says that it is decoded against a base-layer picture.
    pub references_t0: bool,
}

impl RoutingHeader {
    /// A keyframe of the base layer: temporal 0, spatial 0.
    pub open spec fn is_base_keyframe_spec(&self) -> bool {
        self.is_keyframe && self.temporal_layer_id == 0 && self.spatial_layer_id == 0
    }

    /// Whether this is a keyframe of the base layer (temporal 0, spatial 0).
    #[verifier::when_used_as_spec(is_base_keyframe_spec)]
    pub fn is_base_keyframe(&self) -> (r: bool)
        ensures
            r == self.is_base_keyframe_spec(),
    {
        self.is_keyframe && self.temporal_layer_id == 0 && self.spatial_layer_id == 0
    }
}

/// One media packet. Legacy clients send no routing header.
#[derive(Debug, Clone, Copy, PartialEq, Eq, Structural)]
pub struct MediaPacket {
    pub media_type: MediaType,
    pub routing_header: Option<RoutingHeader>,
}

/// One tile of a receiver's layout and the layers it wants there.
#[derive(Debug, Clone, Copy, PartialEq, Eq, Structural)]
pub struct VisibilitySlot {
    pub session_id: SessionId,
    pub preferred_spatial: u32,
    pub preferred_temporal: u32,
}

/// A receiver's declared subscription. It replaces whatever it declared before.
#[derive(Debug, Clone)]
pub struct SubscriptionUpdate {
    pub pinned_sessions: Vec<SessionId>,
    pub slots: Vec<VisibilitySlot>,
    pub max_video_kbps: u32,
    pub receive_all_audio: bool,
    pub receive_all_video: bool,
}

/// Downlink estimate that a receiver reports about itself.
#[derive(Debug, Clone, Copy, PartialEq, Eq, Structural)]
pub struct BandwidthEstimate {
    pub estimated_downlink_kbps: u32,
    pub estimated_loss_rate: Float32,
    pub rtt_ms: u32,
}

} // verus!
