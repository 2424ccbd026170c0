//! Admission, registry and fan-out logic of a small real-time message server.
//!
//! Clients join rooms through signed URLs (an HMAC-SHA-256 of the room name,
//! URL-safe Base64 without padding). Broadcasts fan a message out to every
//! live member of a room; messages that reach nobody go to an offline queue
//! that is replayed when the room is joined again.

pub mod connection;
pub mod gates;
pub mod offline_queue;
pub mod registry;
pub mod signature;
