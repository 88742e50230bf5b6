//! A phi-accrual failure detector for a peer-to-peer cluster: peers
//! gossip membership and heartbeat information over a datagram
//! transport, and every node maintains, for each peer it knows, the
//! state from which a continuous suspicion level is computed. This
//! crate holds the verified core: member identity, the gossip message
//! and its wire codec, the per-peer inter-arrival window, the
//! membership table with its merge, and the decisions of the event
//! loop. The floating-point suspicion arithmetic and all I/O live with
//! the caller.

pub mod codec;
pub mod config;
pub mod fd;
pub mod member;
pub mod proto;
pub mod util;

pub use codec::GossipCodec;
pub use config::Config;
pub use fd::{FDEvent, FDState};
pub use member::{InterArrivalWindow, Member, MemberState};
pub use proto::Gossip;
pub use util::GossipType;
