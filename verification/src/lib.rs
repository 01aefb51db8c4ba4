//! Supervision logic for a desktop shell that runs a packaged backend
//! process: where the backend executable may live, what is kept of its
//! output, how its settings file is read and rewritten, and what the
//! supervisor does at each step of the backend's life.

pub mod locator;
pub mod log_buffer;
pub mod settings;
pub mod settings_file;
pub mod settings_laws;
pub mod supervisor;
pub mod text;
