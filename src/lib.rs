//! Decision logic of a command-line installer that fetches a prebuilt FFmpeg
//! archive, keeps its executables, and registers the installation directory on
//! the user's `Path` variable.
pub mod text;
pub mod path_var;
pub mod install;
