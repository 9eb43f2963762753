pub mod config;
pub mod digest;
pub mod record;
pub mod scan;
pub mod store;
