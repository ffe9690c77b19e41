//! The emblem slot format and the integer parts of the renderer.
pub mod format;
pub mod outline;
pub mod rank;
