pub mod geometry;
pub mod history;

pub mod app_state;
pub mod laws;
pub mod coherence;
pub mod transitions;
pub mod index_laws;
