//! Where the log file goes.
use vstd::prelude::*;

use crate::config::LogConfig;
use crate::error::SandboxError;
use crate::path::{normalize_path, join_path, path_starts_with, starts_with_spec};
use crate::sandbox::write_target;

verus! {

/// Resolve and validate the log file path within the sandbox root, so that
/// a crafted `sandbox.toml` cannot write logs outside the jail.
pub fn resolve_log_path(config: &LogConfig, sandbox_root: &str) -> (r: std::result::Result<
    String,
    SandboxError,
>)
    ensures
        match r {
            Ok(p) => p@ == write_target(sandbox_root@, config.file@) && starts_with_spec(
                p@,
                sandbox_root@,
            ),
            Err(e) => e matches SandboxError::PathEscape(m) && m@ == config.file@
                && !starts_with_spec(write_target(sandbox_root@, config.file@), sandbox_root@),
        },
{
    let raw = join_path(sandbox_root, config.file.as_str());
    let normalized = normalize_path(raw.as_str());
    if !path_starts_with(normalized.as_str(), sandbox_root) {
        return Err(SandboxError::PathEscape(config.file.clone()));
    }
    Ok(normalized)
}

/// The file to log to: none when logging is disabled (nothing is to be
/// created), else the validated log path.
pub fn log_destination(config: &LogConfig, sandbox_root: &str) -> (r: std::result::Result<
    Option<String>,
    SandboxError,
>)
    ensures
        !config.enabled ==> r matches Ok(None),
        config.enabled ==> match r {
            Ok(Some(p)) => p@ == write_target(sandbox_root@, config.file@) && starts_with_spec(
                p@,
                sandbox_root@,
            ),
            Ok(None) => false,
            Err(e) => e matches SandboxError::PathEscape(m) && m@ == config.file@
                && !starts_with_spec(write_target(sandbox_root@, config.file@), sandbox_root@),
        },
{
    if !config.enabled {
        return Ok(None);
    }
    match resolve_log_path(config, sandbox_root) {
        Ok(p) => Ok(Some(p)),
        Err(e) => Err(e),
    }
}

} // verus!
