//! The coordination core of a federated chat home server: per-room locks,
//! failure back-off, long-poll rotation and sync handles, signing keys, and
//! room alias management and resolution.

pub mod patterns;
pub mod servers;
pub mod alias;
pub mod routes;
pub mod ruma_wrapper;
pub mod room_mutex;
pub mod ratelimit;
pub mod rotation;
pub mod sync_handles;
pub mod federation_time;
pub mod signing_keys;
pub mod globals;
