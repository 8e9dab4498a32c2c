//! A link-state registry and a best-effort command fan-out core.
//!
//! The registry keeps two independent directional maps from peer
//! identifiers to opaque configurations; the dispatch module models one
//! fan-out round over a snapshot of the linked-to peers, folding the
//! per-peer outcomes into a single response ("last success wins", with a
//! fixed sentinel when nothing succeeded).

pub mod dispatch;
pub mod registry;
