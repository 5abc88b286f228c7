pub mod config;
pub mod events;
pub mod state;
pub mod ui;
pub mod render;
