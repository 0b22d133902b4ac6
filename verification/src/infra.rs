//! What the proxy decides about the infrastructure that runs a backend.

pub mod console;
pub mod process;
pub mod stopping;
