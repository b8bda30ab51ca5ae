//! Event timers: recurring event windows on fixed-length cycles, and the
//! notification engine that decides, once per second, which followed events
//! deserve a toast.
//!
//! - `occurrence`: the current or next occurrence of an event at an instant.
//! - `notifications`: the dedup/cooldown ledger and the fading toast queue.
//! - `notification_logic`: the tick that ties them together, and the
//!   upcoming-events projection.
//! - `subscriptions`: which events a user follows.
//! - `catalog`, `schedule`, `time_utils`, `config`: the event catalog, its
//!   expansion into events, its anchor times, and the user's track changes.

pub mod catalog;
pub mod config;
pub mod notification_logic;
pub mod notifications;
pub mod occurrence;
pub mod schedule;
pub mod subscriptions;
pub mod time_utils;
