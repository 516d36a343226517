//! Peer selection for multi-source downloads: which peers of a candidate set should serve a content
//! request, in what order, and with how many concurrent ranges each.

pub mod active_laws;
pub mod address;
pub mod answer_laws;
pub mod call_laws;
pub mod choice_laws;
pub mod closeness;
pub mod config;
pub mod determinism;
pub mod dial;
pub mod double_laws;
pub mod doubles;
pub mod draw;
pub mod engine;
pub mod engine_laws;
pub mod event_laws;
pub mod formula;
pub mod history;
pub mod identity;
pub mod in_doubles;
pub mod judging;
pub mod keeping_laws;
pub mod learning_laws;
pub mod life;
pub mod mean_laws;
pub mod measure;
pub mod moving_laws;
pub mod nearness_laws;
pub mod observe;
pub mod order;
pub mod outcome_laws;
pub mod peer_table;
pub mod pool_event;
pub mod quality;
pub mod ranking;
pub mod ranking_laws;
pub mod rate_laws;
pub mod registry;
pub mod registry_laws;
pub mod rounding;
pub mod saturation_laws;
pub mod scoring;
pub mod scoring_laws;
pub mod starvation;
pub mod state;
pub mod turns;
pub mod types;
pub mod view_laws;
pub mod worth_laws;

pub use address::{AddressKind, CandidateAddr, IpAddress, SocketAddress, TraversalKind};
pub use config::{ClockSource, SelectorConfig, DEFAULT_REGISTRY_CAPACITY};
pub use dial::{PeerTarget, MAX_DIAL_CANDIDATES};
pub use dig_dht::ContentId;
pub use doubles::Doubles;
pub use engine::PeerSelector;
pub use identity::PeerId;
pub use measure::{Arithmetic, Measure};
pub use observe::{peer_id_hex, PeerSnapshot, SelectorSnapshot};
pub use pool_event::{PoolEvent, PoolRemovalReason};
pub use quality::{Estimate, PeerQuality, Reliability};
pub use registry::{FeedResult, PeerEntry};
pub use scoring::{PeerClass, RelayModel, SaturationModel};
pub use types::{
    Candidate, ContentRequest, FailureReason, OutcomeKind, OutcomeResult, Provenance,
    ProviderRecord, RangePlanDelta, SelectedPeer, Selection, TransferOutcome,
};
