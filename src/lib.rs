//! A model of a media server's layered configuration: the comment-annotated
//! dialect of its packaged defaults, the live values, staged edits, and the
//! grouping of properties into display sections.

pub mod catalog;
pub mod config;
pub mod dialect;
pub mod field;
pub mod json;
pub mod layers;
pub mod scope;
pub mod sections;
pub mod literal;
pub mod pages;
pub mod text;
