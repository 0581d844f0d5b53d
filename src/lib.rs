//! Ranking of shell history entries, and the state of an interactive search session.

pub mod history;
pub mod ranking_laws;
pub mod render;
pub mod search;
pub mod session;
pub mod text;
