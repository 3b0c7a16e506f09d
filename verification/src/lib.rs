pub mod batch;
pub mod cache;
pub mod compiler;
pub mod config;
pub mod discovery;
pub mod loader;
pub mod reporter;
pub mod staleness;
pub mod swap;
pub mod text;
pub mod validator;
pub mod vendor;
