//! A subtitle tool's verified core: language names and codes, prompt
//! parsing, subtitle ordering, request URLs, the configuration file, and
//! the handling of Matroska tracks and downloaded archives.
pub mod archive;
pub mod config;
pub mod lang;
pub mod mkv;
pub mod selection;
pub mod subsource;
pub mod text;
