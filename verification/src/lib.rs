//! Groups XML documents by their structural skeleton: element names, attribute
//! key sets and nesting, with every value discarded.

pub mod cli;
pub mod processor;
pub mod utils;
pub mod validation;
pub mod xsconfig;

pub use cli::Cli;
pub use processor::{struct_processor, xml_struct};
pub use validation::{report, validate};
pub use xsconfig::{LoggingConfig, OutputConfig, ProcessingConfig, XsConfig};
