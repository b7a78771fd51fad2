//! A verified core for an IRC server: message parsing and serialization, connection
//! registration, channel membership and routing, metrics, and configuration checks.

pub mod text;
pub mod protocol;
pub mod model;
mod state;
pub mod server;
pub mod config;
pub mod laws;

pub use model::{ConnectionId, OutboundMessage};
pub use protocol::{Message, ParseError};
pub use server::{MetricsSnapshot, ServerCore, ServerMetrics};
pub use config::Config;
