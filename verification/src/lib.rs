pub mod alias_service;
pub mod fuzz;
mod system;
pub mod metrics_service;
pub mod ordered;
pub mod peer;
pub mod pubsub_service;
pub mod replicate_kv_service;
pub mod stream;
pub mod visualization_service;
