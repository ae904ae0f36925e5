pub mod embedding;
pub mod embedding_cache;
pub mod inference;
pub mod pins;
pub mod preparation;
pub mod runtime_config;
pub mod session;
pub mod worker;
