//! Verified core of a two-section todo list: the task table and its ordering
//! rules, and the decisions the window makes between user actions and writes.

pub mod db;
pub mod edits;
pub mod external;
pub mod history;
pub mod listing;
pub mod model;
pub mod properties;
pub mod theme;
pub mod ui;
pub mod window_level;
