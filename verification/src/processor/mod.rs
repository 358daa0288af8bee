//! Shape extraction, skeleton reduction and fingerprint grouping.

pub mod attribute_keys;
pub mod canonical;
pub mod canonical_laws;
pub mod distinctness_laws;
pub mod extraction_laws;
pub mod grouping;
pub mod key_order;
pub mod key_order_laws;
pub mod ranking;
pub mod reduction_laws;
pub mod skeleton;
pub mod skeleton_laws;
pub mod struct_processor;
pub mod text;
pub mod xml_source;
pub mod xml_struct;

pub use struct_processor::{parse_xml_structure, process_xml_files, summarize};
pub use xml_struct::{ProcessingResult, SkeletonSignature, StructureGroup, XmlStructure};
