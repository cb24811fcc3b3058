//! A room-scoped registry of websocket connections.

pub mod broadcaster;
pub mod chat;
pub mod connection;
pub mod model;
pub mod room;
