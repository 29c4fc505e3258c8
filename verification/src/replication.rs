//! Read-only replication: how a replica follows its master, and what every
//! node can say about the set it belongs to.
//!
//! A replica compares its own heads with its master's listing and fetches
//! what differs. Notifications only make that happen sooner. A deletion is
//! taken from a complete listing alone, never from a notification, and a
//! replica stops and asks for an operator rather than give up what it holds.
pub mod follower;
pub mod health;
pub mod identity;
pub mod index;
pub mod issues;
pub mod notifier;
pub mod pending;
pub mod registry;
pub mod status;
pub mod stream;
pub mod sync;
pub mod wire;
pub mod worker;
