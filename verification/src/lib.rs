pub mod clock;
pub mod complete;
pub mod config;
pub mod describe;
pub mod error;
pub mod exact;
pub mod input;
pub mod matrix;
pub mod model;
pub mod order;
pub mod render;
pub mod search;
pub mod setup;
pub mod text;
pub mod trace;
pub mod utils;
pub mod walk;

pub use matrix::DancingLinks;
