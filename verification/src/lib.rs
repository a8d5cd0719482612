//! Directory listing: path display names, directory traversal order,
//! column layout and the engine that ties the listing modes together.

pub mod engine;
pub mod entry;
pub mod error;
pub mod layout;
pub mod order;
pub mod path_format;
pub mod terminal;
pub mod traverse;
pub mod tree;
