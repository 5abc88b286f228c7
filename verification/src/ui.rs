pub mod canvas;
pub mod cache;
pub mod menu;
