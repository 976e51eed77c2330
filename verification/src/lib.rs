//! Turning the files of a project into one Markdown document: paths are
//! normalized against the project's root, and each file becomes a section.
pub mod logger;
pub mod normalizer;
pub mod path_model;
pub mod renderer;
pub mod util;

pub use normalizer::{NormalizeError, Normalizer};
