pub mod app;
pub mod audio;
pub mod browser;
pub mod clock;
pub mod float;
pub mod path;
pub mod startup;
pub mod text;
pub mod theme;
