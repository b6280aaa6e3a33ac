//! A workout-tracking core: hierarchical activities and activity events per
//! user, kept in a relational-style store, together with the tab-separated
//! spreadsheet import pipeline that reconciles an exercise log into that
//! hierarchy.
//!
//! The store itself is modelled as in-memory tables; the surrounding binary
//! supplies connection handling, HTTP routing and source fetching.

pub mod activities;
pub mod activity_events;
pub mod date;
pub mod import;
pub mod store;
pub mod text;
pub mod tsv;
pub mod users;
