//! Loading and aggregation core of a documentation generator for a catalog of
//! pipeline components.
//!
//! Each catalog entry is a YAML file (or a directory holding `template.yml`)
//! that may hold several documents; the first document with the expected
//! shape describes the component. The catalog maps each entry's identifier to
//! the outcome of loading it, and is walked in key order.

pub mod catalog;
pub mod model;
pub mod names;
pub mod order;
pub mod scan;
pub mod selector;

pub use catalog::Catalog;
pub use model::{Components, Input, LoadingResult, Spec};
pub use names::{component_name, get_version, source_file, trim_newline, TEMPLATE_FILE_NAME};
pub use scan::{collect_catalog, load_components_from, EntryReport};
pub use selector::{select_outcome, DocumentSelector};
