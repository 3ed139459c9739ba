pub mod cli;
pub mod clock;
pub mod config;
pub mod error;
pub mod http;
pub mod logging;
pub mod path;
pub mod platform;
pub mod sandbox;
pub mod storage;
pub mod text;

pub use error::{Result, SandboxError};
pub use sandbox::Sandbox;
