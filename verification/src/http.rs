//! Request and response values, and the parts of request building that are
//! pure computation. Sending and receiving is done by the application.
use std::collections::HashMap;

use vstd::prelude::*;

use crate::config::Config;
use crate::error::{invalid_input, io_error, IoErrorKind, SandboxError};

verus! {

/// `serde_json::Value`, carried opaquely.
#[verifier::external_type_specification]
#[verifier::external_body]
pub struct ExJsonValue(serde_json::Value);

/// The value `serde_json` parses `text` into, or `None` when it refuses
/// the text.
pub uninterp spec fn json_parse(text: Seq<char>) -> Option<serde_json::Value>;

/// Whether `serde_json` accepts `text` as a JSON document.
pub open spec fn json_valid(text: Seq<char>) -> bool {
    json_parse(text) is Some
}

/// `serde_json::from_str::<Value>`: the value depends on the text alone,
/// so it is named, not spelled out.
#[verifier::external_body]
pub(crate) fn parse_json(text: &str) -> (parsed: std::result::Result<
    serde_json::Value,
    serde_json::Error,
>)
    ensures
        match parsed {
            Ok(v) => json_parse(text@) == Some(v),
            Err(_) => json_parse(text@) is None,
        },
{
    serde_json::from_str(text)
}

/// The text `serde_json::to_string_pretty` prints for `value`, or `None`
/// when it fails.
pub uninterp spec fn json_pretty_text(value: serde_json::Value) -> Option<Seq<char>>;

/// `serde_json::to_string_pretty` on a value: the text depends on the
/// value alone, so it is named, not spelled out.
#[verifier::external_body]
fn json_to_pretty(value: &serde_json::Value) -> (text: std::result::Result<
    String,
    serde_json::Error,
>)
    ensures
        match text {
            Ok(t) => json_pretty_text(*value) == Some(t@),
            Err(_) => json_pretty_text(*value) is None,
        },
{
    serde_json::to_string_pretty(value)
}

/// The pretty form of `body`: `None` when it is not JSON; else the text
/// `serde_json` prints for its value, or the body itself when printing fails.
pub open spec fn pretty_json_spec(body: Seq<char>) -> Option<Seq<char>> {
    match json_parse(body) {
        Some(v) => match json_pretty_text(v) {
            Some(t) => Some(t),
            None => Some(body),
        },
        None => None,
    }
}

/// A character allowed in a header name: the token characters of HTTP.
pub open spec fn is_token_char(c: char) -> bool {
    let u = c as u32;
    ||| (0x30 <= u <= 0x39)
    ||| (0x41 <= u <= 0x5a)
    ||| (0x61 <= u <= 0x7a)
    ||| c == '!' || c == '#' || c == '$' || c == '%' || c == '&' || c == '\''
    ||| c == '*' || c == '+' || c == '-' || c == '.' || c == '^' || c == '_'
    ||| c == '`' || c == '|' || c == '~'
}

/// Whether `HeaderName::from_str` accepts `name`: between one and 65535
/// token characters.
pub open spec fn header_name_ok(name: Seq<char>) -> bool {
    &&& 1 <= name.len() <= 65535
    &&& forall|k: int| 0 <= k < name.len() ==> is_token_char(#[trigger] name[k])
}

/// Whether `HeaderValue::from_str` accepts `value`: no control character
/// other than tab, and no DEL.
pub open spec fn header_value_ok(value: Seq<char>) -> bool {
    forall|k: int|
        0 <= k < value.len() ==> {
            let u = #[trigger] value[k] as u32;
            (u >= 32 && u != 127) || u == 9
        }
}

/// `reqwest::header::HeaderName::from_str` (the `http` crate's): `None`
/// when it accepts `name` (one to 65535 bytes, each a token character),
/// else its error message, which is not stated.
#[verifier::external_body]
fn check_header_name(name: &str) -> (problem: Option<String>)
    ensures
        problem is None == header_name_ok(name@),
{
    match <reqwest::header::HeaderName as std::str::FromStr>::from_str(name) {
        Ok(_) => None,
        Err(e) => Some(e.to_string()),
    }
}

/// `reqwest::header::HeaderValue::from_str` (the `http` crate's): `None`
/// when it accepts `value` (every byte at least 32 and not 127, or a tab;
/// bytes of non-ASCII characters are all at least 128), else its error
/// message, which is not stated.
#[verifier::external_body]
fn check_header_value(value: &str) -> (problem: Option<String>)
    ensures
        problem is None == header_value_ok(value@),
{
    match reqwest::header::HeaderValue::from_str(value) {
        Ok(_) => None,
        Err(e) => Some(e.to_string()),
    }
}

pub struct RequestOptions<'a> {
    pub url: &'a str,
    pub headers: Vec<(String, String)>,
    pub query: Vec<(String, String)>,
}

pub struct HttpResponse {
    pub status: u16,
    pub headers: HashMap<String, String>,
    pub body: String,
    pub url: String,
}

/// A list of string pairs, as values.
pub open spec fn pairs_view(v: Seq<(String, String)>) -> Seq<(Seq<char>, Seq<char>)> {
    v.map_values(|p: (String, String)| (p.0@, p.1@))
}

/// Every name and value in `pairs` is accepted as an HTTP header.
pub open spec fn headers_ok(pairs: Seq<(Seq<char>, Seq<char>)>) -> bool {
    forall|i: int|
        0 <= i < pairs.len() ==> header_name_ok(#[trigger] pairs[i].0) && header_value_ok(
            pairs[i].1,
        )
}

impl HttpResponse {
    /// The body re-printed as pretty JSON, or `None` when it is not JSON.
    pub fn pretty_json(&self) -> (pretty: Option<String>)
        ensures
            match pretty {
                Some(t) => pretty_json_spec(self.body@) == Some(t@),
                None => pretty_json_spec(self.body@) is None,
            },
    {
        match parse_json(self.body.as_str()) {
            Ok(v) => match json_to_pretty(&v) {
                Ok(text) => Some(text),
                Err(_) => Some(self.body.clone()),
            },
            Err(_) => None,
        }
    }
}

/// Appends `pairs` to `out`, checking each name and value; stops at the
/// first one that is refused.
fn push_checked_headers(out: &mut Vec<(String, String)>, pairs: &[(String, String)]) -> (r:
    std::result::Result<(), SandboxError>)
    ensures
        match r {
            Ok(()) => headers_ok(pairs_view(pairs@)) && pairs_view(final(out)@) == pairs_view(
                old(out)@,
            ) + pairs_view(pairs@),
            Err(e) => !headers_ok(pairs_view(pairs@)) && invalid_input(e),
        },
{
    let ghost start = pairs_view(out@);
    let mut i: usize = 0;
    while i < pairs.len()
        invariant
            0 <= i <= pairs.len(),
            start == pairs_view(old(out)@),
            headers_ok(pairs_view(pairs@).take(i as int)),
            pairs_view(out@) == start + pairs_view(pairs@).take(i as int),
        decreases pairs.len() - i,
    {
        let (k, v) = &pairs[i];
        match check_header_name(k.as_str()) {
            Some(msg) => {
                proof {
                    assert(!header_name_ok(pairs_view(pairs@)[i as int].0));
                }
                return Err(SandboxError::Io(io_error(IoErrorKind::InvalidInput, msg)));
            },
            None => {},
        }
        match check_header_value(v.as_str()) {
            Some(msg) => {
                proof {
                    assert(!header_value_ok(pairs_view(pairs@)[i as int].1));
                    assert(header_name_ok(pairs_view(pairs@)[i as int].0));
                }
                return Err(SandboxError::Io(io_error(IoErrorKind::InvalidInput, msg)));
            },
            None => {},
        }
        let ghost before = pairs_view(out@);
        out.push((k.clone(), v.clone()));
        proof {
            assert(pairs_view(out@) =~= before.push((k@, v@)));
            assert(pairs_view(pairs@).take(i + 1) =~= pairs_view(pairs@).take(i as int).push(
                (k@, v@),
            ));
            assert(headers_ok(pairs_view(pairs@).take(i + 1))) by {
                let t = pairs_view(pairs@).take(i + 1);
                assert forall|j: int| 0 <= j < t.len() implies header_name_ok(
                    #[trigger] t[j].0,
                ) && header_value_ok(t[j].1) by {
                    if j < i {
                        assert(t[j] == pairs_view(pairs@).take(i as int)[j]);
                    }
                }
            }
        }
        i = i + 1;
    }
    proof {
        assert(pairs_view(pairs@).take(pairs.len() as int) =~= pairs_view(pairs@));
    }
    Ok(())
}

// ── Merging headers ─────────────────────────────────────────────────────────

/// A character's code with ASCII upper case folded to lower case.
pub open spec fn lower_code(c: char) -> u32 {
    let u = c as u32;
    if 65 <= u <= 90 {
        (u + 32) as u32
    } else {
        u
    }
}

/// Header names compare without regard to ASCII case.
pub open spec fn same_name(a: Seq<char>, b: Seq<char>) -> bool {
    &&& a.len() == b.len()
    &&& forall|i: int| 0 <= i < a.len() ==> lower_code(#[trigger] a[i]) == lower_code(b[i])
}

/// The index of the last entry of `list` named like `name`, or -1.
pub open spec fn name_index(list: Seq<(Seq<char>, Seq<char>)>, name: Seq<char>) -> int
    decreases list.len(),
{
    if list.len() == 0 {
        -1
    } else if same_name(list.last().0, name) {
        list.len() - 1
    } else {
        name_index(list.drop_last(), name)
    }
}

/// Setting a header: an entry with the same name gets the new value in its
/// place; otherwise the header is appended.
pub open spec fn merge_pair(list: Seq<(Seq<char>, Seq<char>)>, p: (Seq<char>, Seq<char>)) -> Seq<
    (Seq<char>, Seq<char>),
> {
    let i = name_index(list, p.0);
    if i >= 0 {
        list.update(i, (list[i].0, p.1))
    } else {
        list.push(p)
    }
}

/// The headers set one after another: one entry per name (without regard
/// to case), in the order names first appear, each holding the last value
/// given for it.
pub open spec fn merge_headers(ps: Seq<(Seq<char>, Seq<char>)>) -> Seq<(Seq<char>, Seq<char>)>
    decreases ps.len(),
{
    if ps.len() == 0 {
        Seq::<(Seq<char>, Seq<char>)>::empty()
    } else {
        merge_pair(merge_headers(ps.drop_last()), ps.last())
    }
}

proof fn lemma_name_index_range(list: Seq<(Seq<char>, Seq<char>)>, name: Seq<char>)
    ensures
        -1 <= name_index(list, name) < list.len(),
    decreases list.len(),
{
    if list.len() > 0 {
        lemma_name_index_range(list.drop_last(), name);
    }
}

fn lower_code_exec(c: char) -> (code: u32)
    ensures
        code == lower_code(c),
{
    let u = c as u32;
    if 65 <= u && u <= 90 {
        u + 32
    } else {
        u
    }
}

fn same_name_exec(a: &str, b: &str) -> (same: bool)
    ensures
        same == same_name(a@, b@),
{
    let n = a.unicode_len();
    if n != b.unicode_len() {
        return false;
    }
    let mut i: usize = 0;
    while i < n
        invariant
            n == a@.len(),
            n == b@.len(),
            0 <= i <= n,
            forall|j: int| 0 <= j < i ==> lower_code(#[trigger] a@[j]) == lower_code(b@[j]),
        decreases n - i,
    {
        if lower_code_exec(a.get_char(i)) != lower_code_exec(b.get_char(i)) {
            return false;
        }
        i = i + 1;
    }
    true
}

fn find_name(list: &Vec<(String, String)>, name: &str) -> (found: Option<usize>)
    ensures
        match found {
            Some(i) => i as int == name_index(pairs_view(list@), name@),
            None => name_index(pairs_view(list@), name@) == -1,
        },
{
    let ghost v = pairs_view(list@);
    let mut j: usize = list.len();
    proof {
        assert(v.take(list.len() as int) =~= v);
    }
    while j > 0
        invariant
            j <= list.len(),
            v == pairs_view(list@),
            name_index(v, name@) == name_index(v.take(j as int), name@),
        decreases j,
    {
        let ghost t = v.take(j as int);
        proof {
            assert(t.last() == v[j - 1]);
            assert(t.drop_last() =~= v.take(j - 1));
        }
        if same_name_exec(list[j - 1].0.as_str(), name) {
            return Some(j - 1);
        }
        j = j - 1;
    }
    None
}

/// Sets the headers of `pairs` one after another.
fn merge_header_pairs(pairs: &Vec<(String, String)>) -> (merged: Vec<(String, String)>)
    ensures
        pairs_view(merged@) == merge_headers(pairs_view(pairs@)),
{
    let ghost pv = pairs_view(pairs@);
    let mut out: Vec<(String, String)> = Vec::new();
    let mut i: usize = 0;
    proof {
        assert(pv.take(0) =~= Seq::<(Seq<char>, Seq<char>)>::empty());
        assert(pairs_view(out@) =~= merge_headers(pv.take(0)));
    }
    while i < pairs.len()
        invariant
            0 <= i <= pairs.len(),
            pv == pairs_view(pairs@),
            pairs_view(out@) == merge_headers(pv.take(i as int)),
        decreases pairs.len() - i,
    {
        let (k, v) = &pairs[i];
        let ghost before = pairs_view(out@);
        proof {
            assert(pv.take(i + 1).drop_last() =~= pv.take(i as int));
            assert(pv.take(i + 1).last() == (k@, v@));
            lemma_name_index_range(before, k@);
        }
        match find_name(&out, k.as_str()) {
            Some(j) => {
                let name = out[j].0.clone();
                out.set(j, (name, v.clone()));
                proof {
                    assert(pairs_view(out@) =~= before.update(j as int, (before[j as int].0, v@)));
                }
            },
            None => {
                out.push((k.clone(), v.clone()));
                proof {
                    assert(pairs_view(out@) =~= before.push((k@, v@)));
                }
            },
        }
        i = i + 1;
    }
    proof {
        assert(pv.take(pairs.len() as int) =~= pv);
    }
    out
}

/// The headers to send: the configured defaults, then `extra`, each name
/// and value checked as an HTTP header, then set one after another so that
/// a later header replaces the value of an earlier one with the same name
/// (without regard to case). A refused one is an I/O error of kind
/// `InvalidInput`.
pub fn build_headers(extra: &[(String, String)], config: &Config) -> (r: std::result::Result<
    Vec<(String, String)>,
    SandboxError,
>)
    ensures
        ({
            let all = pairs_view(config.default_headers@) + pairs_view(extra@);
            match r {
                Ok(v) => {
                    &&& headers_ok(all)
                    &&& pairs_view(v@) == merge_headers(all)
                    &&& names_covered(all, pairs_view(v@))
                    &&& names_distinct(pairs_view(v@))
                    &&& names_given(all, pairs_view(v@))
                    &&& values_last(all, pairs_view(v@))
                },
                Err(e) => !headers_ok(all) && invalid_input(e),
            }
        }),
{
    let mut out: Vec<(String, String)> = Vec::new();
    let ghost all = pairs_view(config.default_headers@) + pairs_view(extra@);
    proof {
        assert(pairs_view(out@) =~= Seq::<(Seq<char>, Seq<char>)>::empty());
        assert(Seq::<(Seq<char>, Seq<char>)>::empty() + pairs_view(config.default_headers@)
            =~= pairs_view(config.default_headers@));
    }
    match push_checked_headers(&mut out, config.default_headers.as_slice()) {
        Ok(()) => {},
        Err(e) => {
            proof {
                let d = pairs_view(config.default_headers@);
                assert forall|i: int| 0 <= i < d.len() implies #[trigger] all[i] == d[i] by {}
                if headers_ok(all) {
                    assert forall|i: int| 0 <= i < d.len() implies header_name_ok(
                        #[trigger] d[i].0,
                    ) && header_value_ok(d[i].1) by {
                        assert(all[i] == d[i]);
                    }
                }
            }
            return Err(e);
        },
    }
    match push_checked_headers(&mut out, extra) {
        Ok(()) => {
            proof {
                assert(pairs_view(out@) =~= all);
                let d = pairs_view(config.default_headers@);
                let x = pairs_view(extra@);
                assert forall|i: int| 0 <= i < all.len() implies header_name_ok(
                    #[trigger] all[i].0,
                ) && header_value_ok(all[i].1) by {
                    if i < d.len() {
                        assert(all[i] == d[i]);
                    } else {
                        assert(all[i] == x[i - d.len()]);
                    }
                }
            }
            proof {
                lemma_merge_headers_entries(all);
            }
            Ok(merge_header_pairs(&out))
        },
        Err(e) => {
            proof {
                let d = pairs_view(config.default_headers@);
                let x = pairs_view(extra@);
                if headers_ok(all) {
                    assert forall|i: int| 0 <= i < x.len() implies header_name_ok(
                        #[trigger] x[i].0,
                    ) && header_value_ok(x[i].1) by {
                        let k = i + d.len();
                        assert(0 <= k < all.len());
                        assert(all[k] == x[i]);
                        assert(header_name_ok(all[k].0));
                    }
                }
            }
            Err(e)
        },
    }
}

// ── Laws of header merging ──────────────────────────────────────────────────

/// A header name with every ASCII capital letter taken to lower case, as
/// character codes.
pub open spec fn lowered(name: Seq<char>) -> Seq<u32> {
    name.map_values(|c: char| lower_code(c))
}

proof fn lemma_same_name_lowered(a: Seq<char>, b: Seq<char>)
    ensures
        same_name(a, b) <==> lowered(a) == lowered(b),
{
    if same_name(a, b) {
        assert(lowered(a) =~= lowered(b));
    }
    if lowered(a) == lowered(b) {
        assert(a.len() == lowered(a).len());
        assert forall|i: int| 0 <= i < a.len() implies lower_code(#[trigger] a[i]) == lower_code(
            b[i],
        ) by {
            assert(lowered(a)[i] == lowered(b)[i]);
        }
    }
}

proof fn lemma_name_index_found(list: Seq<(Seq<char>, Seq<char>)>, name: Seq<char>)
    ensures
        name_index(list, name) >= 0 ==> same_name(list[name_index(list, name)].0, name),
        name_index(list, name) == -1 ==> forall|k: int|
            0 <= k < list.len() ==> !same_name(#[trigger] list[k].0, name),
    decreases list.len(),
{
    if list.len() > 0 {
        lemma_name_index_found(list.drop_last(), name);
        lemma_name_index_range(list.drop_last(), name);
        if !same_name(list.last().0, name) {
            let i = name_index(list.drop_last(), name);
            if i >= 0 {
                assert(list[i] == list.drop_last()[i]);
            }
            assert forall|k: int| 0 <= k < list.len() - 1 implies #[trigger] list[k].0
                == list.drop_last()[k].0 by {}
        }
    }
}

/// `out[k]` holds the value of the last of `ps` named like it (without
/// regard to ASCII case).
pub open spec fn holds_last_value(
    ps: Seq<(Seq<char>, Seq<char>)>,
    out: Seq<(Seq<char>, Seq<char>)>,
    k: int,
) -> bool {
    exists|j: int|
        #![trigger ps[j]]
        0 <= j < ps.len() && lowered(ps[j].0) == lowered(out[k].0) && out[k].1 == ps[j].1 && forall|
            m: int,
        |
            j < m < ps.len() ==> lowered(#[trigger] ps[m].0) != lowered(out[k].0)
}

/// Some entry of `out` is named like `name`, up to ASCII case.
pub open spec fn has_entry_named(out: Seq<(Seq<char>, Seq<char>)>, name: Seq<char>) -> bool {
    exists|k: int| 0 <= k < out.len() && lowered(#[trigger] out[k].0) == lowered(name)
}

/// Every name given has an entry named like it, up to ASCII case.
pub open spec fn names_covered(ps: Seq<(Seq<char>, Seq<char>)>, out: Seq<(Seq<char>, Seq<char>)>) -> bool {
    forall|i: int| 0 <= i < ps.len() ==> #[trigger] has_entry_named(out, ps[i].0)
}

/// No two entries are named alike, up to ASCII case.
pub open spec fn names_distinct(out: Seq<(Seq<char>, Seq<char>)>) -> bool {
    forall|k1: int, k2: int|
        0 <= k1 < k2 < out.len() ==> lowered(#[trigger] out[k1].0) != lowered(#[trigger] out[k2].0)
}

/// `name` is, as written, one of the names in `ps`.
pub open spec fn is_given_name(ps: Seq<(Seq<char>, Seq<char>)>, name: Seq<char>) -> bool {
    exists|i: int| 0 <= i < ps.len() && #[trigger] ps[i].0 == name
}

/// Every entry's name is, as written, one of the names given.
pub open spec fn names_given(ps: Seq<(Seq<char>, Seq<char>)>, out: Seq<(Seq<char>, Seq<char>)>) -> bool {
    forall|k: int| 0 <= k < out.len() ==> #[trigger] is_given_name(ps, out[k].0)
}

/// Every entry holds the value of the last header given with its name.
pub open spec fn values_last(ps: Seq<(Seq<char>, Seq<char>)>, out: Seq<(Seq<char>, Seq<char>)>) -> bool {
    forall|k: int| 0 <= k < out.len() ==> #[trigger] holds_last_value(ps, out, k)
}

#[verifier::rlimit(40)]
proof fn lemma_merge_step_replace(
    prev_ps: Seq<(Seq<char>, Seq<char>)>,
    prev: Seq<(Seq<char>, Seq<char>)>,
    p: (Seq<char>, Seq<char>),
    idx: int,
)
    requires
        names_covered(prev_ps, prev),
        names_distinct(prev),
        names_given(prev_ps, prev),
        values_last(prev_ps, prev),
        0 <= idx < prev.len(),
        lowered(prev[idx].0) == lowered(p.0),
    ensures
        ({
            let ps = prev_ps.push(p);
            let out = prev.update(idx, (prev[idx].0, p.1));
            names_covered(ps, out) && names_distinct(out) && names_given(ps, out) && values_last(ps, out)
        }),
{
    let ps = prev_ps.push(p);
    let out = prev.update(idx, (prev[idx].0, p.1));
    let n = prev_ps.len() as int;
    assert forall|j: int| 0 <= j < n implies #[trigger] ps[j] == prev_ps[j] by {}
    assert forall|k: int| 0 <= k < out.len() implies #[trigger] out[k].0 == prev[k].0 by {}
    assert forall|i: int| 0 <= i < ps.len() implies #[trigger] has_entry_named(out, ps[i].0) by {
        if i < n {
            assert(ps[i] == prev_ps[i]);
            assert(has_entry_named(prev, prev_ps[i].0));
            let k = choose|k: int|
                0 <= k < prev.len() && lowered(#[trigger] prev[k].0) == lowered(prev_ps[i].0);
            assert(out[k].0 == prev[k].0);
        } else {
            assert(ps[i] == p);
            assert(out[idx].0 == prev[idx].0);
        }
    }
    assert(names_distinct(out)) by {
        assert forall|k1: int, k2: int| 0 <= k1 < k2 < out.len() implies lowered(
            #[trigger] out[k1].0,
        ) != lowered(#[trigger] out[k2].0) by {
            assert(out[k1].0 == prev[k1].0 && out[k2].0 == prev[k2].0);
            assert(lowered(prev[k1].0) != lowered(prev[k2].0));
        }
    }
    assert forall|k: int| 0 <= k < out.len() implies #[trigger] is_given_name(ps, out[k].0) by {
        assert(out[k].0 == prev[k].0);
        assert(is_given_name(prev_ps, prev[k].0));
        let i = choose|i: int| 0 <= i < prev_ps.len() && #[trigger] prev_ps[i].0 == prev[k].0;
        assert(ps[i] == prev_ps[i]);
    }
    assert(values_last(ps, out)) by {
        assert forall|k: int| 0 <= k < out.len() implies #[trigger] holds_last_value(ps, out, k) by {
            if k == idx {
                assert(ps[n] == p);
                assert(out[k].1 == p.1);
                assert(lowered(ps[n].0) == lowered(out[k].0));
            } else {
                assert(holds_last_value(prev_ps, prev, k));
                let j = choose|j: int|
                    #![trigger prev_ps[j]]
                    0 <= j < prev_ps.len() && lowered(prev_ps[j].0) == lowered(prev[k].0)
                        && prev[k].1 == prev_ps[j].1 && forall|m: int|
                        j < m < prev_ps.len() ==> lowered(#[trigger] prev_ps[m].0) != lowered(
                            prev[k].0,
                        );
                assert(ps[j] == prev_ps[j]);
                assert(out[k] == prev[k]);
                assert forall|m: int| j < m < ps.len() implies lowered(#[trigger] ps[m].0) != lowered(
                    out[k].0,
                ) by {
                    if m < n {
                        assert(ps[m] == prev_ps[m]);
                    } else {
                        assert(ps[m] == p);
                        if k < idx {
                            assert(lowered(prev[k].0) != lowered(prev[idx].0));
                        } else {
                            assert(lowered(prev[idx].0) != lowered(prev[k].0));
                        }
                    }
                }
            }
        }
    }
}

#[verifier::rlimit(40)]
proof fn lemma_merge_step_append(
    prev_ps: Seq<(Seq<char>, Seq<char>)>,
    prev: Seq<(Seq<char>, Seq<char>)>,
    p: (Seq<char>, Seq<char>),
)
    requires
        names_covered(prev_ps, prev),
        names_distinct(prev),
        names_given(prev_ps, prev),
        values_last(prev_ps, prev),
        forall|k: int| 0 <= k < prev.len() ==> lowered(#[trigger] prev[k].0) != lowered(p.0),
    ensures
        ({
            let ps = prev_ps.push(p);
            let out = prev.push(p);
            names_covered(ps, out) && names_distinct(out) && names_given(ps, out) && values_last(ps, out)
        }),
{
    let ps = prev_ps.push(p);
    let out = prev.push(p);
    let n = prev_ps.len() as int;
    assert forall|j: int| 0 <= j < n implies #[trigger] ps[j] == prev_ps[j] by {}
    assert forall|k: int| 0 <= k < prev.len() implies #[trigger] out[k] == prev[k] by {}
    assert forall|i: int| 0 <= i < ps.len() implies #[trigger] has_entry_named(out, ps[i].0) by {
        if i < n {
            assert(ps[i] == prev_ps[i]);
            assert(has_entry_named(prev, prev_ps[i].0));
            let k = choose|k: int|
                0 <= k < prev.len() && lowered(#[trigger] prev[k].0) == lowered(prev_ps[i].0);
            assert(out[k] == prev[k]);
        } else {
            assert(out[prev.len() as int] == p);
        }
    }
    assert(names_distinct(out)) by {
        assert forall|k1: int, k2: int| 0 <= k1 < k2 < out.len() implies lowered(
            #[trigger] out[k1].0,
        ) != lowered(#[trigger] out[k2].0) by {
            if k2 < prev.len() {
                assert(out[k1] == prev[k1] && out[k2] == prev[k2]);
            } else {
                assert(out[k1] == prev[k1] && out[k2] == p);
            }
        }
    }
    assert forall|k: int| 0 <= k < out.len() implies #[trigger] is_given_name(ps, out[k].0) by {
        if k < prev.len() {
            assert(out[k] == prev[k]);
            assert(is_given_name(prev_ps, prev[k].0));
            let i = choose|i: int| 0 <= i < prev_ps.len() && #[trigger] prev_ps[i].0 == prev[k].0;
            assert(ps[i] == prev_ps[i]);
        } else {
            assert(out[k] == ps[n]);
        }
    }
    assert(values_last(ps, out)) by {
        assert forall|k: int| 0 <= k < out.len() implies #[trigger] holds_last_value(ps, out, k) by {
            if k == prev.len() {
                assert(out[k] == p && ps[n] == p);
                assert(lowered(ps[n].0) == lowered(out[k].0));
            } else {
                assert(holds_last_value(prev_ps, prev, k));
                let j = choose|j: int|
                    #![trigger prev_ps[j]]
                    0 <= j < prev_ps.len() && lowered(prev_ps[j].0) == lowered(prev[k].0)
                        && prev[k].1 == prev_ps[j].1 && forall|m: int|
                        j < m < prev_ps.len() ==> lowered(#[trigger] prev_ps[m].0) != lowered(
                            prev[k].0,
                        );
                assert(ps[j] == prev_ps[j]);
                assert(out[k] == prev[k]);
                assert forall|m: int| j < m < ps.len() implies lowered(#[trigger] ps[m].0) != lowered(
                    out[k].0,
                ) by {
                    if m < n {
                        assert(ps[m] == prev_ps[m]);
                    } else {
                        assert(ps[m] == p);
                    }
                }
            }
        }
    }
}

/// Setting headers one after another keeps one entry for every name given,
/// told apart without regard to ASCII case and nothing else: every name
/// given has an entry whose name equals it up to case, no two entries'
/// names are equal up to case, every entry's name is one of those given as
/// written, and every entry holds the value of the last header given with
/// its name.
pub proof fn lemma_merge_headers_entries(ps: Seq<(Seq<char>, Seq<char>)>)
    ensures
        names_covered(ps, merge_headers(ps)),
        names_distinct(merge_headers(ps)),
        names_given(ps, merge_headers(ps)),
        values_last(ps, merge_headers(ps)),
    decreases ps.len(),
{
    if ps.len() > 0 {
        let prev_ps = ps.drop_last();
        let prev = merge_headers(prev_ps);
        let p = ps.last();
        lemma_merge_headers_entries(prev_ps);
        lemma_name_index_range(prev, p.0);
        lemma_name_index_found(prev, p.0);
        let idx = name_index(prev, p.0);
        assert(ps == prev_ps.push(p));
        if idx >= 0 {
            lemma_same_name_lowered(prev[idx].0, p.0);
            lemma_merge_step_replace(prev_ps, prev, p, idx);
        } else {
            assert forall|k: int| 0 <= k < prev.len() implies lowered(#[trigger] prev[k].0) != lowered(
                p.0,
            ) by {
                lemma_same_name_lowered(prev[k].0, p.0);
            }
            lemma_merge_step_append(prev_ps, prev, p);
        }
    }
}

} // verus!
