//! Checks of TEI conventions on a parsed document.

pub mod render;
pub mod report;
pub mod validate;
