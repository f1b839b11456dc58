//! Server-side engine for the PostgreSQL wire protocol: message framing,
//! connection phases and per-connection session stores.

pub mod buffer;
pub mod codec;
pub mod startup;
pub mod wire;
pub mod store;
pub mod api;
