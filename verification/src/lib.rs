//! Code search: the index of a root, the meaning of its parts, and how both are served.

pub mod digest;
pub mod path_laws;
pub mod paths;
pub mod semantic;
pub mod source;
pub mod store;
pub mod system;
pub mod tables;
pub mod text;
pub mod text_laws;
pub mod unicode;
pub mod workspace;
