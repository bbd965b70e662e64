//! A sync engine: it takes events (scan results, incoming messages, timer ticks) and returns
//! actions (write a file, send a message, record history). It does no I/O, reads no clock and
//! draws no randomness.
//!
//! Every operation has a contract over the mathematical value that its type stands for, and the
//! laws that relate several operations are proved beside them.

use vstd::prelude::*;

pub mod batch;
pub mod brake;
pub mod conflict;
pub mod engine;
pub mod engine_view;
pub mod entry;
pub mod folder;
pub mod folder_view;
pub mod id;
pub mod index;
pub mod laws;
pub mod order;
pub mod ordmap;
pub mod parts;
pub mod path;
pub mod quarantine;
pub mod rules;
pub mod text;
pub mod time;
pub mod version;
pub mod want;

verus! {

/// The version of this library.
pub const VERSION: &'static str = "0.1.0";

} // verus!
