pub mod cache_format;
pub mod cache_laws;
pub mod table;
