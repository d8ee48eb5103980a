//! Leaderboard bookkeeping for cheese-race personal bests: the data model,
//! the ranking rules, the page parsers and the change reports.

pub mod model;
pub mod ranking;
pub mod leaderboard;
pub mod text;
pub mod stats;
pub mod numbers;
pub mod html;
pub mod profile;
pub mod runpage;
pub mod crawl;
