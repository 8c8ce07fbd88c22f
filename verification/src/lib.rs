//! A lap-time leaderboard for a racing event.
//!
//! The leaderboard records each driver's lap times, keeps the
//! fastest-lap flag consistent across all drivers after every
//! mutation, and renders the standings as CSV and JSON documents.

pub mod duration;
pub mod export;
pub mod store;
