pub mod config;
pub mod error;
pub mod json;
pub mod model;
