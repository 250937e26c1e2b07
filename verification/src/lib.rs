//! A pub/sub hub for cooperative raid invitations announced on a social-media
//! post stream.
//!
//! The crate parses raw posts into raid records, maintains a catalog of
//! currently-active raid bosses (with image-hash-based translation linking),
//! and fans invitation and catalog events out to subscribers with bounded
//! per-boss history.

pub mod backlog;
pub mod broadcast;
pub mod circular_buffer;
pub mod id_pool;
pub mod image_hash;
pub mod metrics;
pub mod model;
pub mod raid;
pub mod text;
pub mod worker;
