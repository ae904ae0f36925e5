pub mod admission;
pub mod client;
pub mod client_laws;
pub mod connection;
pub mod engine;
pub mod lease;
pub mod load_retry;
pub mod protocol;
pub mod request_laws;
pub mod rerank_executor;
pub mod root_set;
pub mod runtime;
pub mod runtime_laws;
pub mod scheduler;
pub mod scheduler_laws;
pub mod status;
