//! `trail`: understand how your code changed, not just what changed.

pub mod choice;
pub mod cli;
pub mod data;
pub mod display;
pub mod edit;
pub mod error;
pub mod git;
pub mod map;
pub mod order;
pub mod path;
pub mod recorder;
pub mod review;
pub mod text;
pub mod time;
pub mod trail;
pub mod tui;
pub mod tui_laws;
