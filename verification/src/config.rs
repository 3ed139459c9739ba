//! The sandbox configuration (`sandbox.toml`) as plain values.
use vstd::prelude::*;

use crate::path::{join_path, join_spec};
use crate::text::str_is;
use crate::error::SandboxError;
use crate::path::starts_with_spec;
use crate::sandbox::{jail_path, write_shape_within, write_target};

verus! {

/// Verbosity threshold for the file logger.
#[derive(Debug, Clone, Copy, PartialEq, Eq, Structural)]
pub enum LevelFilter {
    Off,
    Error,
    Warn,
    Info,
    Debug,
    Trace,
}

/// The `[log]` table of `sandbox.toml`.
#[derive(Debug)]
pub struct LogConfig {
    pub enabled: bool,
    pub file: String,
    pub level: String,
}

/// The level a `level` string names; anything else means `Info`.
pub open spec fn level_of(level: Seq<char>) -> LevelFilter {
    if level == "error"@ {
        LevelFilter::Error
    } else if level == "warn"@ {
        LevelFilter::Warn
    } else if level == "info"@ {
        LevelFilter::Info
    } else if level == "debug"@ {
        LevelFilter::Debug
    } else if level == "trace"@ {
        LevelFilter::Trace
    } else {
        LevelFilter::Info
    }
}

impl Default for LogConfig {
    /// Logging on, to `sandbox.log`, at level `info`.
    fn default() -> (cfg: LogConfig)
        ensures
            cfg.enabled,
            cfg.file@ == "sandbox.log"@,
            cfg.level@ == "info"@,
    {
        LogConfig {
            enabled: true,
            file: String::from_str("sandbox.log"),
            level: String::from_str("info"),
        }
    }
}

impl LogConfig {
    /// The level filter the `level` string names (`error`, `warn`, `info`,
    /// `debug`, `trace`); any other string falls back to `Info`.
    pub fn level_filter(&self) -> (filter: LevelFilter)
        ensures
            filter == level_of(self.level@),
    {
        let l = self.level.as_str();
        if str_is(l, "error") {
            LevelFilter::Error
        } else if str_is(l, "warn") {
            LevelFilter::Warn
        } else if str_is(l, "info") {
            LevelFilter::Info
        } else if str_is(l, "debug") {
            LevelFilter::Debug
        } else if str_is(l, "trace") {
            LevelFilter::Trace
        } else {
            LevelFilter::Info
        }
    }
}

/// The contents of `sandbox.toml`.
#[derive(Debug)]
pub struct Config {
    pub version: String,
    pub default_headers: Vec<(String, String)>,
    pub response_dir: String,
    pub timeout_secs: u64,
    pub readonly_dirs: Vec<String>,
    pub log: LogConfig,
}

impl Default for Config {
    /// The defaults written to a fresh `sandbox.toml`.
    fn default() -> (cfg: Config)
        ensures
            cfg.version@ == "0.1.0"@,
            cfg.default_headers@.len() == 0,
            cfg.response_dir@ == "responses"@,
            cfg.timeout_secs == 30,
            cfg.readonly_dirs@.len() == 0,
            cfg.log.enabled,
            cfg.log.file@ == "sandbox.log"@,
            cfg.log.level@ == "info"@,
    {
        Config {
            version: String::from_str("0.1.0"),
            default_headers: Vec::new(),
            response_dir: String::from_str("responses"),
            timeout_secs: 30,
            readonly_dirs: Vec::new(),
            log: LogConfig::default(),
        }
    }
}

impl Config {
    /// Where responses are stored: the response directory joined to the sandbox root.
    pub fn response_dir_path(&self, sandbox_root: &str) -> (p: String)
        ensures
            p@ == join_spec(sandbox_root@, self.response_dir@),
    {
        join_path(sandbox_root, self.response_dir.as_str())
    }

    /// The response directory, normalized, refused unless it lies under the
    /// sandbox root, also after resolving the links of the part that exists.
    pub fn checked_response_dir(&self, sandbox_root: &str) -> (r: std::result::Result<
        String,
        SandboxError,
    >)
        ensures
            !starts_with_spec(write_target(sandbox_root@, self.response_dir@), sandbox_root@)
                ==> r is Err,
            match r {
                Ok(p) => p@ == write_target(sandbox_root@, self.response_dir@) && starts_with_spec(
                    p@,
                    sandbox_root@,
                ) && write_shape_within(sandbox_root@, self.response_dir@),
                Err(e) => e matches SandboxError::PathEscape(m) && m@ == self.response_dir@,
            },
    {
        jail_path(sandbox_root, self.response_dir.as_str())
    }
}

} // verus!
