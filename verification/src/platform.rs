//! The operating-system specific defaults.
use vstd::prelude::*;

use crate::path::{join_path, join_spec};

verus! {

/// What the library needs to know of the operating system it runs on.
pub trait Platform {
    /// Short identifier used in diagnostics ("macos", "linux", "windows").
    fn name(&self) -> &'static str;

    /// OS-appropriate default root when the caller does not specify a
    /// directory. `None` only if the data directory cannot be determined.
    fn default_sandbox_dir(&self) -> Option<String>;
}

/// The sandbox directory inside the data directory `data`.
pub open spec fn app_dir_in(data: Seq<char>) -> Seq<char> {
    join_spec(data, "sandbox-rs"@)
}

/// `dirs::data_dir`, lossily converted to a string. It depends on the
/// environment, so nothing is stated of it.
#[verifier::external_body]
fn data_dir() -> (dir: Option<String>) {
    match dirs::data_dir() {
        Some(d) => Some(d.to_string_lossy().into_owned()),
        None => None,
    }
}

/// The sandbox directory inside the data directory, if there is one.
pub fn sandbox_dir_in(data: Option<String>) -> (dir: Option<String>)
    ensures
        match data {
            Some(d) => dir matches Some(p) && p@ == app_dir_in(d@),
            None => dir is None,
        },
{
    match data {
        Some(d) => Some(join_path(d.as_str(), "sandbox-rs")),
        None => None,
    }
}

/// The platform's data directory joined with `sandbox-rs`.
fn data_sandbox_dir() -> (dir: Option<String>)
    ensures
        dir matches Some(p) ==> exists|d: Seq<char>| p@ == app_dir_in(d),
{
    sandbox_dir_in(data_dir())
}

pub struct Linux;

pub struct MacOS;

pub struct Windows;

/// Fallback for Unix systems that are neither macOS nor Linux.
pub struct GenericUnix;

impl Platform for Linux {
    fn name(&self) -> (n: &'static str)
        ensures
            n@ == "linux"@,
    {
        "linux"
    }

    /// `~/.local/share/sandbox-rs` (XDG_DATA_HOME or its default).
    fn default_sandbox_dir(&self) -> (dir: Option<String>)
        ensures
            dir matches Some(p) ==> exists|d: Seq<char>| p@ == app_dir_in(d),
    {
        data_sandbox_dir()
    }
}

impl Platform for MacOS {
    fn name(&self) -> (n: &'static str)
        ensures
            n@ == "macos"@,
    {
        "macos"
    }

    /// `~/Library/Application Support/sandbox-rs`.
    fn default_sandbox_dir(&self) -> (dir: Option<String>)
        ensures
            dir matches Some(p) ==> exists|d: Seq<char>| p@ == app_dir_in(d),
    {
        data_sandbox_dir()
    }
}

impl Platform for Windows {
    fn name(&self) -> (n: &'static str)
        ensures
            n@ == "windows"@,
    {
        "windows"
    }

    /// `%APPDATA%\sandbox-rs` (Roaming AppData).
    fn default_sandbox_dir(&self) -> (dir: Option<String>)
        ensures
            dir matches Some(p) ==> exists|d: Seq<char>| p@ == app_dir_in(d),
    {
        data_sandbox_dir()
    }
}

impl Platform for GenericUnix {
    fn name(&self) -> (n: &'static str)
        ensures
            n@ == "unix"@,
    {
        "unix"
    }

    fn default_sandbox_dir(&self) -> (dir: Option<String>)
        ensures
            dir matches Some(p) ==> exists|d: Seq<char>| p@ == app_dir_in(d),
    {
        data_sandbox_dir()
    }
}

} // verus!
