//! Relay core for forwarding media-library events to chat webhooks.
//!
//! The heart of the crate is the event coalescing engine: events that share a
//! coalescing key and arrive close together in time are merged into a single
//! notification, which is then fanned out to every configured endpoint.
//!
//! - [`embed`] holds the outbound notification records.
//! - [`plex`] holds the inbound event records.
//! - [`table`] is the coalescing table: one pending group per key.
//! - [`scheduler`] is the decision core of the control loop that owns the table.
//! - [`builder`] turns event metadata into notification fragments and merges
//!   a pending group into one notification.
//! - [`dispatch`] plans the fan-out of one notification to all endpoints and
//!   accounts for per-endpoint outcomes.
//! - [`decimal`] renders the numbers that descriptions quote.

pub mod builder;
pub mod decimal;
pub mod dispatch;
pub mod embed;
pub mod plex;
pub mod scheduler;
pub mod table;
