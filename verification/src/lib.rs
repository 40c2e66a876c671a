//! Daily word counts for the Rime input method: the CSV log the input method
//! appends to, the per-day table built from it, the grouped statistics both
//! front ends show, the interface language, and the default file locations.

pub mod calendar;
pub mod db;
pub mod i18n;
pub mod log_processor;
pub mod number;
pub mod paths;
pub mod stats;
pub mod text;

pub use db::GroupBy;
pub use i18n::Language;
pub use stats::{compute_dashboard, Dashboard, Point, Summary};
