//! Course timetable planning: catalog, conflict rules, selection, fuzzy
//! search and shareable references.

pub mod config;
pub mod model;
pub mod text;
pub mod distance;
pub mod edits;
pub mod score;
pub mod conflict;
pub mod selection;
pub mod ranking;
pub mod search;
pub mod codec;
pub mod link;
pub mod session;
pub mod grid;
pub mod listing;
pub mod typewriter;
