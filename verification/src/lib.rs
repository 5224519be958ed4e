pub mod accumulator;
pub mod alert;
pub mod analysis;
pub mod config;
pub mod csvlog;
pub mod protocol;
pub mod retention;
pub mod rows;
pub mod text;
pub mod tracker;
