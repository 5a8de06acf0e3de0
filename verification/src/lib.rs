//! A provider-neutral quota governor for subscription-backed worker fleets.

pub mod config;
pub mod controller;
pub mod cycle;
pub mod double;
pub mod fleet;
pub mod json;
pub mod model;
pub mod name_map;
pub mod pacing;
pub mod paths;
pub mod source;
pub mod state;
pub mod text;
pub mod timestamp;
