//! Core of a plain-text planner: parsing of outline documents into scheduled
//! items and habits, and a deterministic calculus that decides, for a given
//! calendar day, which items are due, scheduled or expected on that day.

pub mod date;
pub mod text;
pub mod repeater;
pub mod agenda;
pub mod occurrence;
pub mod habit;
pub mod slate;
pub mod roam;
pub mod edit;
pub mod view;
pub mod sync;
pub mod bridge;
pub mod config;
