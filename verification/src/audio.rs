pub mod callback;
pub mod data;
pub mod decode;
pub mod engine;
pub mod engine_laws;
pub mod laws;
pub mod peak_laws;
pub mod peaks;
pub mod playback_laws;
