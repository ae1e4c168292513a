//! Decision logic of a selective forwarding unit (SFU) for video calls.
//!
//! The crate holds the state of one room (its members, their subscriptions, the
//! active speakers, the layer budget of each receiver) and decides, packet by
//! packet, what is forwarded to whom. Every function is verified against its
//! contract. Clocks, sockets, locks and the wire encoding of packets live with
//! the caller: instants are monotonic nanosecond counts, and floating-point
//! quantities are carried as their IEEE-754 bit patterns.
pub mod affinity;
pub mod concurrent_map;
pub mod config;
pub mod float32;
pub mod forwarder;
pub mod forwarding_health;
pub mod health_beacon;
pub mod ids;
pub mod layer_map;
pub mod layer_selector;
pub mod packet;
pub mod priority_queue;
pub mod room_state;
pub mod rounding;
pub mod speaker;
pub mod spillover;
pub mod subscription;
pub mod text;
pub mod trace;
