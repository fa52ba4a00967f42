//! Engine for turn-based, LLM-driven interactive stories.
//!
//! The library covers the structural core of the application: the incremental
//! delimiter scanner that splits a streamed completion into sections, the
//! encode/decode protocol for structured turn results, the session engine that
//! builds requests and commits finished turns, and the binary save archive
//! that persists session data together with generated images.
//!
//! Network transport, file handling and the widget layer live outside the
//! library and talk to it through plain values.
#![allow(unused_imports)]
use vstd::prelude::*;

pub mod game;
pub mod llm;
pub mod save_archive;
pub mod strutil;
pub mod timefmt;
pub mod ui;

verus! {

/// Number of proposed next actions a structured turn result must carry.
pub const N_PROPOSED_OPTIONS: usize = 3;

/// Number of most recent committed turns replayed into each request.
pub const HIST_SIZE: usize = 8;

/// A new summary is requested once this many turns are not yet covered.
pub const SUMMARY_INTERVAL: usize = 8;

} // verus!
