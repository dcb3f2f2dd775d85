//! Endpoint discovery pipeline for a service-mesh proxy's outbound path.
//!
//! The crate models the machinery that turns a logical target into a live,
//! changing set of per-endpoint services: a resolution driver that reconciles
//! reconnects and applies backoff, a build set that constructs one service per
//! resolved address with per-address cancellation, and a bounded buffer that
//! delivers changes to a consumer with backpressure.

pub mod addr;
pub mod buffer;
pub mod discover;
pub mod dst;
pub mod imap;
pub mod make;
pub mod require_identity;
