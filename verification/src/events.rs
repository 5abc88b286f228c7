pub mod keyboard;
pub mod pointer;
pub mod gesture;
