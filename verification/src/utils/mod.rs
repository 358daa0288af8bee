//! What the program around the library decides on plain values.

pub mod fs_utils;
pub mod log_utils;

pub use fs_utils::{find_xml_files, validate_directory};
pub use log_utils::parse_log_level;
