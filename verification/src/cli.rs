//! The decisions of the command-line front end: argument parsing, the
//! sandbox directory, the request body, and what to do with a response.
use vstd::prelude::*;

use crate::error::SandboxError;
use crate::http::{json_parse, json_valid, pairs_view, parse_json, RequestOptions};
use crate::path::strs_view;
use crate::text::{first_at, split_once, split_once_spec, trim, trim_spec, trim_start_spec};

verus! {

/// `Name: Value`, split at the first `:` with both sides trimmed.
pub open spec fn header_entry(s: Seq<char>) -> Option<(Seq<char>, Seq<char>)> {
    match split_once_spec(s, ':') {
        Some((k, v)) => Some((trim_spec(k), trim_spec(v))),
        None => None,
    }
}

/// `key=value`, split at the first `=`.
pub open spec fn kv_entry(s: Seq<char>) -> Option<(Seq<char>, Seq<char>)> {
    split_once_spec(s, '=')
}

pub open spec fn header_error(s: Seq<char>) -> Seq<char> {
    "invalid header '"@ + s + "' (expected 'Name: Value')"@
}

pub open spec fn kv_error(s: Seq<char>) -> Seq<char> {
    "invalid key=value pair '"@ + s + "'"@
}

/// What parsing each of `raw` with `entry` gives: the pairs when every
/// entry parses, else the message `error` makes of the first that does not.
pub open spec fn parsed_all(
    raw: Seq<Seq<char>>,
    entry: spec_fn(Seq<char>) -> Option<(Seq<char>, Seq<char>)>,
    error: spec_fn(Seq<char>) -> Seq<char>,
    r: std::result::Result<Vec<(String, String)>, SandboxError>,
) -> bool {
    match r {
        Ok(v) => {
            &&& v@.len() == raw.len()
            &&& forall|i: int| 0 <= i < raw.len() ==> entry(#[trigger] raw[i]) == Some(pairs_view(v@)[i])
        },
        Err(e) => exists|j: int|
            {
                &&& 0 <= j < raw.len()
                &&& entry(#[trigger] raw[j]) is None
                &&& forall|i: int| 0 <= i < j ==> entry(#[trigger] raw[i]) is Some
                &&& e matches SandboxError::InvalidArg(m) && m@ == error(raw[j])
            },
    }
}

fn quoted_error(prefix: &str, s: &str, suffix: &str) -> (m: String)
    ensures
        m@ == prefix@ + s@ + suffix@,
{
    let mut m = String::from_str(prefix);
    m.append(s);
    m.append(suffix);
    m
}

/// Parse `Name: Value` header arguments; the first one without a `:` is an
/// invalid argument.
pub fn parse_headers(raw: &[String]) -> (r: std::result::Result<Vec<(String, String)>, SandboxError>)
    ensures
        parsed_all(strs_view(raw@), |s| header_entry(s), |s| header_error(s), r),
{
    let ghost rv = strs_view(raw@);
    let mut out: Vec<(String, String)> = Vec::new();
    let mut i: usize = 0;
    while i < raw.len()
        invariant
            0 <= i <= raw.len(),
            rv == strs_view(raw@),
            out@.len() == i,
            forall|j: int| 0 <= j < i ==> header_entry(#[trigger] rv[j]) == Some(pairs_view(out@)[j]),
        decreases raw.len() - i,
    {
        let s = raw[i].as_str();
        match split_once(s, ':') {
            Some((k, v)) => {
                let key = String::from_str(trim(k));
                let value = String::from_str(trim(v));
                let ghost before = pairs_view(out@);
                out.push((key, value));
                proof {
                    assert(pairs_view(out@) =~= before.push((trim_spec(k@), trim_spec(v@))));
                    assert(rv[i as int] == s@);
                }
            },
            None => {
                let m = quoted_error("invalid header '", s, "' (expected 'Name: Value')");
                let r = Err(SandboxError::InvalidArg(m));
                proof {
                    assert(rv[i as int] == s@);
                    assert forall|j: int| 0 <= j < i implies header_entry(#[trigger] rv[j]) is Some by {}
                }
                return r;
            },
        }
        i = i + 1;
    }
    Ok(out)
}

/// Parse `key=value` arguments; the first one without a `=` is an invalid
/// argument.
pub fn parse_kv(raw: &[String]) -> (r: std::result::Result<Vec<(String, String)>, SandboxError>)
    ensures
        parsed_all(strs_view(raw@), |s| kv_entry(s), |s| kv_error(s), r),
{
    let ghost rv = strs_view(raw@);
    let mut out: Vec<(String, String)> = Vec::new();
    let mut i: usize = 0;
    while i < raw.len()
        invariant
            0 <= i <= raw.len(),
            rv == strs_view(raw@),
            out@.len() == i,
            forall|j: int| 0 <= j < i ==> kv_entry(#[trigger] rv[j]) == Some(pairs_view(out@)[j]),
        decreases raw.len() - i,
    {
        let s = raw[i].as_str();
        match split_once(s, '=') {
            Some((k, v)) => {
                let ghost before = pairs_view(out@);
                out.push((String::from_str(k), String::from_str(v)));
                proof {
                    assert(pairs_view(out@) =~= before.push((k@, v@)));
                    assert(rv[i as int] == s@);
                }
            },
            None => {
                let m = quoted_error("invalid key=value pair '", s, "'");
                let r = Err(SandboxError::InvalidArg(m));
                proof {
                    assert(rv[i as int] == s@);
                    assert forall|j: int| 0 <= j < i implies kv_entry(#[trigger] rv[j]) is Some by {}
                }
                return r;
            },
        }
        i = i + 1;
    }
    Ok(out)
}

/// The request options for `url`: headers from `Name: Value` arguments,
/// query parameters from `key=value` arguments.
pub fn build_opts<'a>(url: &'a str, headers: Vec<String>, query: Vec<String>) -> (r:
    std::result::Result<RequestOptions<'a>, SandboxError>)
    ensures
        ({
            let hs = strs_view(headers@);
            let qs = strs_view(query@);
            let all_headers = forall|i: int| 0 <= i < hs.len() ==> header_entry(#[trigger] hs[i]) is Some;
            match r {
                Ok(opts) => {
                    &&& opts.url@ == url@
                    &&& parsed_all(hs, |s| header_entry(s), |s| header_error(s), Ok(opts.headers))
                    &&& parsed_all(qs, |s| kv_entry(s), |s| kv_error(s), Ok(opts.query))
                },
                Err(e) => if all_headers {
                    parsed_all(qs, |s| kv_entry(s), |s| kv_error(s), Err(e))
                } else {
                    parsed_all(hs, |s| header_entry(s), |s| header_error(s), Err(e))
                },
            }
        }),
{
    let parsed_headers = match parse_headers(headers.as_slice()) {
        Ok(h) => h,
        Err(e) => {
            return Err(e);
        },
    };
    let parsed_query = match parse_kv(query.as_slice()) {
        Ok(q) => q,
        Err(e) => {
            return Err(e);
        },
    };
    Ok(RequestOptions { url, headers: parsed_headers, query: parsed_query })
}

/// The sandbox directory: the one given explicitly, else the platform's
/// default, else the current directory.
pub fn resolve_dir(explicit: Option<String>, default_dir: Option<String>) -> (dir: String)
    ensures
        dir@ == match explicit {
            Some(e) => e@,
            None => match default_dir {
                Some(d) => d@,
                None => "."@,
            },
        },
{
    match explicit {
        Some(e) => e,
        None => match default_dir {
            Some(d) => d,
            None => String::from_str("."),
        },
    }
}

/// Where a response is saved.
pub enum SaveAction {
    /// Under the given file name in the response directory.
    Named(String),
    /// Under a file name made from the current time.
    Auto,
    /// Not at all.
    Skip,
}

/// What to do with a response.
pub struct OutputPlan {
    pub print: bool,
    pub save: SaveAction,
}

/// The save behaviour: `--save <name>` saves under that name (printing as
/// well when `--print` is given); `--print` alone prints without saving;
/// with neither the response is saved under a timestamp name.
pub fn plan_output(save: Option<String>, print: bool) -> (plan: OutputPlan)
    ensures
        plan.print == print,
        match save {
            Some(name) => plan.save matches SaveAction::Named(n) && n@ == name@,
            None => if print {
                plan.save is Skip
            } else {
                plan.save is Auto
            },
        },
{
    let action = match save {
        Some(name) => SaveAction::Named(name),
        None => if print {
            SaveAction::Skip
        } else {
            SaveAction::Auto
        },
    };
    OutputPlan { print, save: action }
}

/// The body of a POST request.
pub enum PostBody {
    /// A JSON document.
    Json(serde_json::Value),
    /// Form fields, sent url-encoded.
    Form(Vec<(String, String)>),
    /// No body was given: JSON `null` is sent.
    Empty,
}

/// The POST body: `--json` wins and must parse as JSON; else non-empty
/// `--form` fields, which must each be `key=value`; else an empty body.
pub fn post_body(json: Option<String>, form: &[String]) -> (r: std::result::Result<
    PostBody,
    SandboxError,
>)
    ensures
        match json {
            Some(raw) => match r {
                Ok(b) => b matches PostBody::Json(v) && json_parse(raw@) == Some(v),
                Err(e) => !json_valid(raw@) && e is Json,
            },
            None => if form.len() > 0 {
                match r {
                    Ok(b) => b matches PostBody::Form(fields) && parsed_all(
                        strs_view(form@),
                        |s| kv_entry(s),
                        |s| kv_error(s),
                        Ok(fields),
                    ),
                    Err(e) => parsed_all(
                        strs_view(form@),
                        |s| kv_entry(s),
                        |s| kv_error(s),
                        Err(e),
                    ),
                }
            } else {
                r matches Ok(PostBody::Empty)
            },
        },
{
    match json {
        Some(raw) => match parse_json(raw.as_str()) {
            Ok(v) => Ok(PostBody::Json(v)),
            Err(e) => Err(SandboxError::Json(e)),
        },
        None => if form.len() > 0 {
            match parse_kv(form) {
                Ok(fields) => Ok(PostBody::Form(fields)),
                Err(e) => Err(e),
            }
        } else {
            Ok(PostBody::Empty)
        },
    }
}

// ── Laws ────────────────────────────────────────────────────────────────────

proof fn lemma_split_once_at(k: Seq<char>, c: char, rest: Seq<char>)
    requires
        forall|i: int| 0 <= i < k.len() ==> k[i] != c,
    ensures
        split_once_spec(k + seq![c] + rest, c) == Some((k, rest)),
{
    let s = k + seq![c] + rest;
    let n = k.len() as int;
    assert(s[n] == c);
    assert forall|j: int| 0 <= j < n implies s[j] != c by {
        assert(s[j] == k[j]);
    }
    assert(first_at(s, c, n));
    let i = choose|i: int| first_at(s, c, i);
    assert(i == n) by {
        if i < n {
            assert(s[i] == k[i]);
        } else if n < i {
            assert(s[n] != c);
        }
    }
    assert(s.take(n) =~= k);
    assert(s.skip(n + 1) =~= rest);
}

/// A `key=value` argument whose key holds no `=` parses back to that key
/// and value.
pub proof fn lemma_kv_round_trip(key: Seq<char>, value: Seq<char>)
    requires
        forall|i: int| 0 <= i < key.len() ==> key[i] != '=',
    ensures
        kv_entry(key + seq!['='] + value) == Some((key, value)),
{
    lemma_split_once_at(key, '=', value);
}

/// A `Name: Value` argument whose name holds no `:`, with name and value
/// free of surrounding white space, parses back to that name and value.
pub proof fn lemma_header_round_trip(name: Seq<char>, value: Seq<char>)
    requires
        forall|i: int| 0 <= i < name.len() ==> name[i] != ':',
        trim_spec(name) == name,
        trim_spec(value) == value,
    ensures
        header_entry(name + seq![':', ' '] + value) == Some((name, value)),
{
    let spaced = seq![' '] + value;
    assert(name + seq![':', ' '] + value =~= name + seq![':'] + spaced);
    lemma_split_once_at(name, ':', spaced);
    assert(spaced.drop_first() =~= value);
    assert(trim_start_spec(spaced) == trim_start_spec(value));
}

} // verus!
