//! Kladde: a markdown notebook library.
pub mod config;
pub mod day;
pub mod editor;
pub mod frontmatter;
pub mod notebook;
pub mod paths;
pub mod structure;
pub mod template;
pub mod text;
pub mod write;
