pub mod controls;
pub mod drawing_laws;
pub mod laws;
pub mod listing;
pub mod loading_laws;
pub mod pointer;
pub mod pointer_laws;
pub mod state;
pub mod waveform;
