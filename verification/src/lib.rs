//! Log-based hypothesis verification.

pub mod captures;
pub mod hypothesis;
pub mod loki;
pub mod names;
pub mod observation;
pub mod order;
pub mod pattern;
pub mod polling;
pub mod progress;
pub mod runner;
pub mod settling;
pub mod staging;
pub mod tally;
pub mod template;
pub mod text;
pub mod time;
pub mod tree;
pub mod validate;
pub mod variation;
