//! A small terminal document viewer core: a builder that turns markup events
//! into a content tree, and a renderer that turns the tree into styled text.

pub mod builder;
pub mod render;
pub mod style;
pub mod text;
pub mod tree;
