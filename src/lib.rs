//! Simulated process schedulers: round robin, round robin with priorities,
//! and a completely fair scheduler. A driver steps each of them through
//! `next` (what runs now), `stop` (why the last run ended) and `list` (every
//! process by pid); each step is verified against an exact model of the
//! scheduler's state.

pub mod types;
pub mod pcb;
pub mod procs;
pub mod round_robin;
pub mod round_robin_priorities;
pub mod cfs;
