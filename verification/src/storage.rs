//! Saved responses: the record written for a response and where it goes.
use std::collections::HashMap;

use vstd::prelude::*;

use crate::clock::{
    clock_now, file_stem, file_stem_pattern, formatted_text, four_digit_year, rfc3339_stamp,
    rfc3339_text, rfc3339_utc_shape, stem_shape, NANOS_PER_SEC,
};
use crate::error::{io_error, io_error_kind, IoErrorKind, SandboxError};
use crate::http::HttpResponse;
use crate::path::{lemma_path_order_strict, path_less, path_lt, starts_with_spec, strs_view};
use crate::sandbox::{write_shape_within, response_rel, write_target, Sandbox};

verus! {

/// The record stored for a response.
pub struct SavedResponse {
    pub timestamp: String,
    pub url: String,
    pub status: u16,
    pub headers: HashMap<String, String>,
    pub body: String,
}

/// `e` is the error raised when the clock reads a time that cannot be
/// printed: an I/O error of kind `Other`.
pub open spec fn clock_failure(e: SandboxError) -> bool {
    e matches SandboxError::Io(err) && io_error_kind(err) == Some(IoErrorKind::Other)
}

/// The error raised when the clock reads a time that cannot be printed.
fn clock_error() -> (e: SandboxError)
    ensures
        clock_failure(e),
{
    SandboxError::Io(io_error(IoErrorKind::Other, String::from_str("system clock out of range")))
}

/// `t` is the RFC 3339 stamp of some reading of the clock.
pub open spec fn is_clock_stamp(t: Seq<char>) -> bool {
    exists|secs: i64, nanos: u32|
        #![trigger rfc3339_text(secs, nanos)]
        nanos < NANOS_PER_SEC && t == rfc3339_text(secs, nanos) && (four_digit_year(secs, nanos)
            ==> rfc3339_utc_shape(t, secs, nanos))
}

/// `name` is the time-stamped file name of some reading of the clock: the
/// file-stem pattern printed for it, then `.json`.
pub open spec fn is_stamped_name(name: Seq<char>) -> bool {
    exists|secs: i64, nanos: u32|
        #![trigger formatted_text(secs, nanos, file_stem_pattern())]
        nanos < NANOS_PER_SEC && name == formatted_text(secs, nanos, file_stem_pattern())
            + ".json"@ && (four_digit_year(secs, nanos) ==> stem_shape(
            formatted_text(secs, nanos, file_stem_pattern()),
            secs,
            nanos,
        ))
}

impl SavedResponse {
    /// The record of `resp`, stamped with `timestamp`.
    pub fn from_http_at(resp: &HttpResponse, timestamp: String) -> (saved: SavedResponse)
        ensures
            saved.timestamp == timestamp,
            saved.url == resp.url,
            saved.status == resp.status,
            saved.headers@ == resp.headers@,
            saved.body == resp.body,
    {
        SavedResponse {
            timestamp,
            url: resp.url.clone(),
            status: resp.status,
            headers: resp.headers.clone(),
            body: resp.body.clone(),
        }
    }

    /// The record of `resp`, stamped with the current time (RFC 3339, UTC);
    /// an error when the clock reads a time that cannot be printed.
    pub fn from_http(resp: &HttpResponse) -> (r: Result<SavedResponse, SandboxError>)
        ensures
            match r {
                Ok(saved) => saved.url == resp.url && saved.status == resp.status
                    && saved.headers@ == resp.headers@ && saved.body == resp.body
                    && is_clock_stamp(saved.timestamp@),
                Err(e) => clock_failure(e),
            },
    {
        match clock_now() {
            Some((secs, nanos)) => match rfc3339_stamp(secs, nanos) {
                Some(t) => {
                    let saved = Self::from_http_at(resp, t);
                    proof {
                        assert(nanos < NANOS_PER_SEC && saved.timestamp@ == rfc3339_text(
                            secs,
                            nanos,
                        ));
                    }
                    Ok(saved)
                },
                None => Err(clock_error()),
            },
            None => Err(clock_error()),
        }
    }
}

/// The file name to save under: the one given, else `stem` with `.json`.
pub fn file_name_from(filename: Option<&str>, stem: String) -> (name: String)
    ensures
        name@ == match filename {
            Some(f) => f@,
            None => stem@ + ".json"@,
        },
{
    match filename {
        Some(f) => String::from_str(f),
        None => {
            let mut name = stem;
            name.append(".json");
            name
        },
    }
}

/// The file name to save under: the one given, else the time-stamped
/// name of the current time; an error when the clock reads a time that
/// cannot be printed.
pub fn response_file_name(filename: Option<&str>) -> (r: Result<String, SandboxError>)
    ensures
        match filename {
            Some(f) => r matches Ok(name) && name@ == f@,
            None => match r {
                Ok(name) => is_stamped_name(name@),
                Err(e) => clock_failure(e),
            },
        },
{
    match filename {
        Some(f) => Ok(file_name_from(Some(f), String::new())),
        None => match clock_now() {
            Some((secs, nanos)) => match file_stem(secs, nanos) {
                Some(stem) => {
                    let name = file_name_from(None, stem);
                    proof {
                        assert(name@ == formatted_text(secs, nanos, file_stem_pattern())
                            + ".json"@);
                    }
                    Ok(name)
                },
                None => Err(clock_error()),
            },
            None => Err(clock_error()),
        },
    }
}

/// The conditions on the path a response named `name` is saved to: it is
/// refused unless it lies under the root and the response directory, and
/// when accepted it is that path, with a resolution on disk under the root.
pub open spec fn save_outcome(
    sandbox: &Sandbox,
    name: Seq<char>,
    r: std::result::Result<String, SandboxError>,
) -> bool {
    let root = sandbox.root_spec();
    let rel = response_rel(sandbox.config_spec().response_dir@, name);
    let dir = write_target(root, sandbox.config_spec().response_dir@);
    &&& !(starts_with_spec(write_target(root, rel), root) && starts_with_spec(
        write_target(root, rel),
        dir,
    )) ==> r is Err
    &&& match r {
        Ok(p) => p@ == write_target(root, rel) && starts_with_spec(p@, root) && starts_with_spec(
            p@,
            dir,
        ) && write_shape_within(root, rel),
        Err(e) => e matches SandboxError::PathEscape(m) && m@ == rel,
    }
}

/// The path a response is saved to: the given file name, or a time-stamped
/// one, inside the response directory, and always inside the sandbox root.
/// Without a file name, an error when the clock reads a time that cannot be
/// printed.
pub fn save_destination(sandbox: &Sandbox, filename: Option<&str>) -> (r: Result<
    String,
    SandboxError,
>)
    ensures
        match filename {
            Some(f) => save_outcome(sandbox, f@, r),
            None => (r matches Err(e) && clock_failure(e)) || exists|name: Seq<char>|
                #![trigger save_outcome(sandbox, name, r)]
                is_stamped_name(name) && save_outcome(sandbox, name, r),
        },
{
    let name = match response_file_name(filename) {
        Ok(name) => name,
        Err(e) => {
            return Err(e);
        },
    };
    let r = sandbox.response_path(name.as_str());
    proof {
        if filename is None {
            assert(is_stamped_name(name@) && save_outcome(sandbox, name@, r));
        }
    }
    r
}

/// No path in `s` comes before an earlier one.
pub open spec fn sorted_paths(s: Seq<Seq<char>>) -> bool {
    forall|i: int, j: int| 0 <= i < j < s.len() ==> !path_lt(#[trigger] s[j], #[trigger] s[i])
}

/// The listed paths in path order (as `Path` orders them), each kept once
/// per occurrence.
pub fn sort_paths(paths: Vec<String>) -> (sorted: Vec<String>)
    ensures
        strs_view(sorted@).to_multiset() == strs_view(paths@).to_multiset(),
        sorted_paths(strs_view(sorted@)),
{
    let ghost pv = strs_view(paths@);
    let mut out: Vec<String> = Vec::new();
    let mut i: usize = 0;
    proof {
        assert(strs_view(out@) =~= pv.take(0));
    }
    while i < paths.len()
        invariant
            0 <= i <= paths.len(),
            pv == strs_view(paths@),
            strs_view(out@).to_multiset() == pv.take(i as int).to_multiset(),
            sorted_paths(strs_view(out@)),
        decreases paths.len() - i,
    {
        let p = &paths[i];
        let ghost ov = strs_view(out@);
        let mut k: usize = 0;
        while k < out.len() && !path_less(p.as_str(), out[k].as_str())
            invariant
                0 <= k <= out.len(),
                ov == strs_view(out@),
                forall|m: int| 0 <= m < k ==> !path_lt(p@, #[trigger] ov[m]),
            decreases out.len() - k,
        {
            k = k + 1;
        }
        out.insert(k, p.clone());
        proof {
            let nv = strs_view(out@);
            assert(nv =~= ov.insert(k as int, p@));
            assert(pv.take(i + 1) =~= pv.take(i as int).push(p@));
            vstd::seq_lib::to_multiset_insert(ov, k as int, p@);
            vstd::seq_lib::to_multiset_build(pv.take(i as int), p@);
            assert forall|a: int, b: int| 0 <= a < b < nv.len() implies !path_lt(
                #[trigger] nv[b],
                #[trigger] nv[a],
            ) by {
                if b < k {
                    assert(nv[a] == ov[a] && nv[b] == ov[b]);
                } else if b == k {
                    assert(nv[a] == ov[a]);
                } else if a == k {
                    let m = b - 1;
                    assert(nv[b] == ov[m]);
                    assert(path_lt(p@, ov[k as int]));
                    if path_lt(ov[m], p@) {
                        lemma_path_order_strict(ov[m], p@, ov[k as int]);
                        lemma_path_order_strict(ov[k as int], ov[k as int], ov[k as int]);
                        if m > k {
                            assert(!path_lt(ov[m], ov[k as int]));
                        }
                    }
                } else if a < k {
                    assert(nv[a] == ov[a] && nv[b] == ov[b - 1]);
                } else {
                    assert(nv[a] == ov[a - 1] && nv[b] == ov[b - 1]);
                }
            }
        }
        i = i + 1;
    }
    proof {
        assert(pv.take(paths.len() as int) =~= pv);
    }
    out
}

} // verus!
