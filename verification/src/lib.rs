pub mod coaccess;
pub mod config;
pub mod dirwalk;
pub mod display;
pub mod filter;
pub mod fixlog;
pub mod history;
pub mod picker;
