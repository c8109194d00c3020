//! Chain-agnostic mailbox/outbox core: canonical data model, deterministic
//! event ordering for the indexer, lag-based snapshot resolution, routing-ISM
//! request framing and response decoding, and the mailbox capability trait.
//!
//! Transport (RPC/gRPC) is a collaborator: callers hand raw query results to
//! this crate as plain values and receive canonical, ordered records back.

pub mod encode;
pub mod indexer;
pub mod mailbox;
pub mod outbox;
pub mod routing_ism;
pub mod types;
