//! Core of a live contest-scoreboard system for ICPC-style programming
//! contests: domain model and scoring, the frozen-scoreboard projection,
//! the revelation engine that uncovers hidden verdicts at the closing
//! ceremony, the in-memory snapshot store, the broadcast fabric for runs
//! and timer updates, and the packed-snapshot loader.

pub mod broadcast;
pub mod configdata;
pub mod contest;
pub mod freeze;
pub mod loader;
pub mod revelation;
pub mod reveleitor;
pub mod secret;
pub mod store;
pub mod timer;
pub mod updater;
