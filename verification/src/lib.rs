//! Analytics for a menstrual-cycle tracker: bleeding episodes reconstructed
//! from dated logs, per-cycle statistics, and the summary of the current
//! cycle. Every function here is a pure function of data that was already
//! fetched; storage and transport live outside this library.

pub mod bleeding;
pub mod calendar;
pub mod cycle;
pub mod cycle_stats;
pub mod errors;
pub mod grouping;
pub mod identifiers;
pub mod models;
pub mod sorting;
pub mod symptoms;
