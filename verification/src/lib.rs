//! A verified core for a chat relay: a session state machine that turns
//! inbound user frames and streamed engine fragments into structured
//! outbound events, an in-memory conversation history replayed to the
//! engine as context, and the canonical wire text for both.
//!
//! A session alternates strictly between awaiting an inbound frame and
//! draining one generation stream: a frame sent while a turn is still
//! generating is not read until that turn's `Done` event has gone out,
//! so back-pressure is implicit and turns never overlap.
pub mod laws;
pub mod msg;
pub mod session;
pub mod wire;
