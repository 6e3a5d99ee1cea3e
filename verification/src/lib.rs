//! Query engine for a Quake-style out-of-band UDP status protocol.
//!
//! The engine frames and validates packets, decodes the reply payload into a
//! structured response, reassembles fragmented replies, and drives the
//! request/retry exchange as an explicit state machine.  All socket work is
//! left to the caller, which feeds transport events into the state machine
//! and performs the actions it answers with.

pub mod codec;
pub mod decode;
pub mod error;
pub mod fragment;
pub mod query;
pub mod response;
pub mod session;

pub use error::Error;
pub use response::{CommonResponse, Player, Response};
