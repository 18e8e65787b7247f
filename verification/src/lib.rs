//! A record/playback HTTP test double: a fixture codec for a markdown-based
//! capture format, an interaction-mode state machine for a process-wide fake
//! server, and the exact bytes that playback emits for a loaded fixture.
//!
//! The listener socket, the background thread and the cross-test lock live in
//! the surrounding binary; this crate holds and verifies everything those
//! moving parts decide with: parsing, encoding, state replacement and
//! response construction.

pub mod playback;
pub mod response;
pub mod servirtium_error;
pub mod servirtium_server;
pub mod text;
