//! The path jail: every path the sandbox hands out for writing lies under
//! its root; paths for reading lie under the root or a readonly directory.
use vstd::prelude::*;

use crate::config::Config;
use crate::error::SandboxError;
use crate::path::{
    comps_view, components, has_root, join_path, join_spec, normalize_components,
    normalize_comps, normalize_path, normalize_spec, path_components, path_starts_with,
    paths_equal, push_comps, push_components_from, render, render_components, same_path,
    starts_with_spec, strs_view, take_components, Component, PathComp,
};

verus! {

// ── Specification ───────────────────────────────────────────────────────────

/// The path a write to `rel` goes to: `rel` joined to the root, normalized.
pub open spec fn write_target(root: Seq<char>, rel: Seq<char>) -> Seq<char> {
    normalize_spec(join_spec(root, rel))
}

/// The path a read of `path` goes to: an absolute `path` as it is, a
/// relative one joined to the root; normalized either way.
pub open spec fn read_target(root: Seq<char>, path: Seq<char>) -> Seq<char> {
    normalize_spec(if has_root(path) { path } else { join_spec(root, path) })
}

/// The relative path of `filename` inside the response directory.
pub open spec fn response_rel(response_dir: Seq<char>, filename: Seq<char>) -> Seq<char> {
    response_dir + seq!['/'] + filename
}

/// `p` lies under one of `roots`.
pub open spec fn within_any(p: Seq<char>, roots: Seq<Seq<char>>) -> bool {
    exists|i: int| 0 <= i < roots.len() && starts_with_spec(p, #[trigger] roots[i])
}

/// `p` may be read: it lies under the sandbox root or under a readonly root.
pub open spec fn read_allowed(p: Seq<char>, root: Seq<char>, roots: Seq<Seq<char>>) -> bool {
    starts_with_spec(p, root) || within_any(p, roots)
}

/// `list` holds a path equal to `p`, component-wise.
pub open spec fn contains_path(list: Seq<Seq<char>>, p: Seq<char>) -> bool {
    exists|i: int| 0 <= i < list.len() && same_path(#[trigger] list[i], p)
}

/// `list` with `p` appended, unless an equal path is already there.
pub open spec fn add_path(list: Seq<Seq<char>>, p: Seq<char>) -> Seq<Seq<char>> {
    if contains_path(list, p) {
        list
    } else {
        list.push(p)
    }
}

/// `add_path` for each of `ps` in turn.
pub open spec fn add_paths(list: Seq<Seq<char>>, ps: Seq<Seq<char>>) -> Seq<Seq<char>>
    decreases ps.len(),
{
    if ps.len() == 0 {
        list
    } else {
        add_path(add_paths(list, ps.drop_last()), ps.last())
    }
}

/// The values present in `s`, in order.
pub open spec fn somes(s: Seq<Option<Seq<char>>>) -> Seq<Seq<char>>
    decreases s.len(),
{
    if s.len() == 0 {
        Seq::<Seq<char>>::empty()
    } else {
        match s.last() {
            Some(v) => somes(s.drop_last()).push(v),
            None => somes(s.drop_last()),
        }
    }
}

pub open spec fn opt_view(o: Option<String>) -> Option<Seq<char>> {
    match o {
        Some(s) => Some(s@),
        None => None,
    }
}

/// A readonly directory as given, with the canonical form of it that the
/// file system reported, if it could be resolved.
pub struct ReadonlyDir {
    pub path: String,
    pub canonical: Option<String>,
}

pub open spec fn dir_paths(dirs: Seq<ReadonlyDir>) -> Seq<Seq<char>> {
    dirs.map_values(|d: ReadonlyDir| d.path@)
}

pub open spec fn dir_canonicals(dirs: Seq<ReadonlyDir>) -> Seq<Seq<char>> {
    somes(dirs.map_values(|d: ReadonlyDir| opt_view(d.canonical)))
}

// ── Resolving links ─────────────────────────────────────────────────────────

/// `Path::canonicalize`, lossily converted to a string: what is on disk
/// decides whether it succeeds and what it gives, so nothing is stated.
#[verifier::external_body]
fn canonicalize(path: &str) -> (canonical: Option<String>) {
    match std::path::Path::new(path).canonicalize() {
        Ok(p) => Some(p.to_string_lossy().into_owned()),
        Err(_) => None,
    }
}

/// The normalized components a write to `rel` goes to.
pub open spec fn write_comps(root: Seq<char>, rel: Seq<char>) -> Seq<PathComp> {
    normalize_comps(components(join_spec(root, rel)))
}

/// `resolved` is what `n` (normalized components) may resolve to on disk:
/// `n` itself when no prefix of it exists, or the components after its
/// longest existing prefix of length `k` pushed onto that prefix's
/// canonical form `c`.
pub open spec fn is_resolution(n: Seq<PathComp>, resolved: Seq<char>) -> bool {
    ||| resolved == render(n)
    ||| exists|k: int, c: Seq<char>|
        #![trigger push_comps(c, n.skip(k))]
        1 <= k <= n.len() && resolved == push_comps(c, n.skip(k))
}

/// Some path of the shape `is_resolution` admits for the write to `rel`
/// lies under `root`. The write target itself is of that shape, so this
/// holds of every target under `root`; it records what was checked, not
/// what the disk holds.
pub open spec fn write_shape_within(root: Seq<char>, rel: Seq<char>) -> bool {
    exists|res: Seq<char>| is_resolution(write_comps(root, rel), res) && starts_with_spec(res, root)
}

/// Resolves the symbolic links of the longest prefix of `n` that exists on
/// disk, keeping the rest of `n` as it is.
fn resolve_links(n: &Vec<Component>) -> (resolved: String)
    ensures
        is_resolution(comps_view(n@), resolved@),
{
    let mut k: usize = n.len();
    while k > 0
        invariant
            k <= n.len(),
        decreases k,
    {
        let prefix = render_components(&take_components(n, k));
        match canonicalize(prefix.as_str()) {
            Some(c) => {
                let ghost c0 = c@;
                let mut resolved = c;
                push_components_from(&mut resolved, n, k);
                proof {
                    assert(1 <= k <= comps_view(n@).len());
                    assert(resolved@ == push_comps(c0, comps_view(n@).skip(k as int)));
                }
                return resolved;
            },
            None => {},
        }
        k = k - 1;
    }
    render_components(n)
}

/// The write decision, given `resolved`, what the path resolved to on disk:
/// `rel` is accepted when its normalized join with `root` lies under
/// `root`, and so does `resolved`.
pub fn jail_path_resolved(root: &str, rel: &str, resolved: &str) -> (r: Result<
    String,
    SandboxError,
>)
    ensures
        match r {
            Ok(p) => p@ == write_target(root@, rel@) && starts_with_spec(p@, root@)
                && starts_with_spec(resolved@, root@),
            Err(e) => e matches SandboxError::PathEscape(m) && m@ == rel@ && !(starts_with_spec(
                write_target(root@, rel@),
                root@,
            ) && starts_with_spec(resolved@, root@)),
        },
{
    let joined = join_path(root, rel);
    let normalized = normalize_path(joined.as_str());
    if !path_starts_with(normalized.as_str(), root) || !path_starts_with(resolved, root) {
        return Err(SandboxError::PathEscape(String::from_str(rel)));
    }
    Ok(normalized)
}

/// Resolve `rel` relative to `root`, rejecting any path that escapes via
/// `..` or via symbolic links of the part of it that exists.
pub fn jail_path(root: &str, rel: &str) -> (r: Result<String, SandboxError>)
    ensures
        !starts_with_spec(write_target(root@, rel@), root@) ==> r is Err,
        match r {
            Ok(p) => p@ == write_target(root@, rel@) && starts_with_spec(p@, root@)
                && write_shape_within(root@, rel@),
            Err(e) => e matches SandboxError::PathEscape(m) && m@ == rel@,
        },
{
    let joined = join_path(root, rel);
    let n = normalize_components(&path_components(joined.as_str()));
    let resolved = resolve_links(&n);
    let r = jail_path_resolved(root, rel, resolved.as_str());
    proof {
        if r is Ok {
            assert(is_resolution(write_comps(root@, rel@), resolved@));
        }
    }
    r
}

// ── The sandbox ─────────────────────────────────────────────────────────────

pub struct Sandbox {
    /// The canonical sandbox root.
    pub root: String,
    pub config: Config,
    /// Canonicalized readonly roots used for read-path validation.
    readonly_roots: Vec<String>,
}

/// Keeps the canonical forms that could be resolved, in order, dropping the others.
pub fn canonicalize_readonly(resolved: &[Option<String>]) -> (roots: Vec<String>)
    ensures
        strs_view(roots@) == somes(resolved@.map_values(|o: Option<String>| opt_view(o))),
{
    let ghost all = resolved@.map_values(|o: Option<String>| opt_view(o));
    let mut roots: Vec<String> = Vec::new();
    let mut i: usize = 0;
    proof {
        assert(all.take(0) =~= Seq::<Option<Seq<char>>>::empty());
        assert(strs_view(roots@) =~= somes(all.take(0)));
    }
    while i < resolved.len()
        invariant
            0 <= i <= resolved.len(),
            all == resolved@.map_values(|o: Option<String>| opt_view(o)),
            strs_view(roots@) == somes(all.take(i as int)),
        decreases resolved.len() - i,
    {
        let ghost before = strs_view(roots@);
        proof {
            assert(all.take(i + 1).drop_last() =~= all.take(i as int));
            assert(all.take(i + 1).last() == opt_view(resolved@[i as int]));
        }
        match &resolved[i] {
            Some(c) => {
                roots.push(c.clone());
                proof {
                    assert(strs_view(roots@) =~= before.push(c@));
                }
            },
            None => {},
        }
        i = i + 1;
    }
    proof {
        assert(all.take(resolved.len() as int) =~= all);
    }
    roots
}

/// Whether `list` holds a path equal to `p`.
fn contains_path_exec(list: &Vec<String>, p: &str) -> (found: bool)
    ensures
        found == contains_path(strs_view(list@), p@),
{
    let mut i: usize = 0;
    while i < list.len()
        invariant
            0 <= i <= list.len(),
            forall|j: int| 0 <= j < i ==> !same_path(#[trigger] strs_view(list@)[j], p@),
        decreases list.len() - i,
    {
        if paths_equal(list[i].as_str(), p) {
            proof {
                assert(same_path(strs_view(list@)[i as int], p@));
            }
            return true;
        }
        i = i + 1;
    }
    false
}

/// Appends `p` to `list` unless an equal path is already there.
fn add_path_exec(list: &mut Vec<String>, p: &String)
    ensures
        strs_view(final(list)@) == add_path(strs_view(old(list)@), p@),
{
    if !contains_path_exec(list, p.as_str()) {
        let ghost before = strs_view(list@);
        list.push(p.clone());
        proof {
            assert(strs_view(list@) =~= before.push(p@));
        }
    }
}

impl Sandbox {
    /// A sandbox rooted at the canonical directory `root`, whose readonly
    /// roots are the canonical forms of `config.readonly_dirs` that could be
    /// resolved (`resolved_readonly`, in the same order).
    pub fn assemble(root: String, config: Config, resolved_readonly: &[Option<String>]) -> (sb:
        Sandbox)
        ensures
            sb.root_spec() == root@,
            sb.config_spec() == config,
            sb.readonly_roots_view() == somes(
                resolved_readonly@.map_values(|o: Option<String>| opt_view(o)),
            ),
    {
        let readonly_roots = canonicalize_readonly(resolved_readonly);
        Sandbox { root, config, readonly_roots }
    }

    /// The canonical readonly roots, as values.
    pub closed spec fn readonly_roots_view(&self) -> Seq<Seq<char>> {
        strs_view(self.readonly_roots@)
    }

    /// The sandbox root, as a value.
    pub closed spec fn root_spec(&self) -> Seq<char> {
        self.root@
    }

    /// The configuration.
    pub closed spec fn config_spec(&self) -> Config {
        self.config
    }

    /// The sandbox root, tied to `root_spec` for callers in other modules.
    pub fn root_str(&self) -> (root: &str)
        ensures
            root@ == self.root_spec(),
    {
        self.root.as_str()
    }

    /// The configuration, tied to `config_spec` for callers in other modules.
    pub fn config_ref(&self) -> (config: &Config)
        ensures
            *config == self.config_spec(),
    {
        &self.config
    }

    /// The canonical readonly roots.
    pub fn readonly_roots(&self) -> (roots: &Vec<String>)
        ensures
            strs_view(roots@) == self.readonly_roots_view(),
    {
        &self.readonly_roots
    }

    /// Extend the in-memory readonly roots for this session without persisting.
    /// Each directory's canonical form joins the readonly roots, and the
    /// directory as given joins `config.readonly_dirs`, unless an equal path
    /// is already there.
    pub fn add_readonly_dirs(&mut self, dirs: &[ReadonlyDir])
        ensures
            final(self).root_spec() == old(self).root_spec(),
            final(self).config_spec().version == old(self).config_spec().version,
            final(self).config_spec().default_headers == old(self).config_spec().default_headers,
            final(self).config_spec().response_dir == old(self).config_spec().response_dir,
            final(self).config_spec().timeout_secs == old(self).config_spec().timeout_secs,
            final(self).config_spec().log == old(self).config_spec().log,
            strs_view(final(self).config_spec().readonly_dirs@) == add_paths(
                strs_view(old(self).config_spec().readonly_dirs@),
                dir_paths(dirs@),
            ),
            final(self).readonly_roots_view() == add_paths(
                old(self).readonly_roots_view(),
                dir_canonicals(dirs@),
            ),
    {
        let ghost roots0 = strs_view(self.readonly_roots@);
        let ghost dirs0 = strs_view(self.config.readonly_dirs@);
        let ghost paths = dir_paths(dirs@);
        let ghost canon = dirs@.map_values(|d: ReadonlyDir| opt_view(d.canonical));
        let mut i: usize = 0;
        proof {
            assert(paths.take(0) =~= Seq::<Seq<char>>::empty());
            assert(canon.take(0) =~= Seq::<Option<Seq<char>>>::empty());
        }
        while i < dirs.len()
            invariant
                0 <= i <= dirs.len(),
                paths == dir_paths(dirs@),
                canon == dirs@.map_values(|d: ReadonlyDir| opt_view(d.canonical)),
                self.root == old(self).root,
                self.config.version == old(self).config.version,
                self.config.default_headers == old(self).config.default_headers,
                self.config.response_dir == old(self).config.response_dir,
                self.config.timeout_secs == old(self).config.timeout_secs,
                self.config.log == old(self).config.log,
                roots0 == old(self).readonly_roots_view(),
                dirs0 == strs_view(old(self).config.readonly_dirs@),
                strs_view(self.readonly_roots@) == add_paths(roots0, somes(canon.take(i as int))),
                strs_view(self.config.readonly_dirs@) == add_paths(dirs0, paths.take(i as int)),
            decreases dirs.len() - i,
        {
            proof {
                assert(paths.take(i + 1).drop_last() =~= paths.take(i as int));
                assert(canon.take(i + 1).drop_last() =~= canon.take(i as int));
                assert(canon.take(i + 1).last() == opt_view(dirs@[i as int].canonical));
            }
            let d = &dirs[i];
            match &d.canonical {
                Some(c) => {
                    add_path_exec(&mut self.readonly_roots, c);
                    proof {
                        let prev = somes(canon.take(i as int));
                        assert(somes(canon.take(i + 1)) == prev.push(c@));
                        assert(prev.push(c@).drop_last() =~= prev);
                    }
                },
                None => {
                    proof {
                        assert(somes(canon.take(i + 1)) == somes(canon.take(i as int)));
                    }
                },
            }
            add_path_exec(&mut self.config.readonly_dirs, &d.path);
            i = i + 1;
        }
        proof {
            assert(paths.take(dirs.len() as int) =~= paths);
            assert(canon.take(dirs.len() as int) =~= canon);
        }
    }

    // ── Write-safe path ─────────────────────────────────────────────────────

    /// Resolve `rel` relative to the sandbox root, rejecting any path that
    /// escapes via `..` or symlinks. For writes only.
    pub fn safe_path(&self, rel: &str) -> (r: Result<String, SandboxError>)
        ensures
            !starts_with_spec(write_target(self.root_spec(), rel@), self.root_spec()) ==> r is Err,
            match r {
                Ok(p) => p@ == write_target(self.root_spec(), rel@) && starts_with_spec(
                    p@,
                    self.root_spec(),
                ) && write_shape_within(self.root_spec(), rel@),
                Err(e) => e matches SandboxError::PathEscape(m) && m@ == rel@,
            },
    {
        jail_path(self.root.as_str(), rel)
    }

    /// Resolve a path inside the responses directory.
    pub fn response_path(&self, filename: &str) -> (r: Result<String, SandboxError>)
        ensures
            ({
                let root = self.root_spec();
                let rel = response_rel(self.config_spec().response_dir@, filename@);
                let dir = write_target(root, self.config_spec().response_dir@);
                &&& !(starts_with_spec(write_target(root, rel), root) && starts_with_spec(
                    write_target(root, rel),
                    dir,
                )) ==> r is Err
                &&& match r {
                    Ok(p) => p@ == write_target(root, rel) && starts_with_spec(p@, root)
                        && starts_with_spec(p@, dir) && write_shape_within(root, rel),
                    Err(e) => e matches SandboxError::PathEscape(m) && m@ == rel,
                }
            }),
    {
        let mut rel = self.config.response_dir.clone();
        rel.append("/");
        rel.append(filename);
        proof {
            reveal_strlit("/");
            assert(rel@ =~= response_rel(self.config.response_dir@, filename@));
        }
        let p = match self.safe_path(rel.as_str()) {
            Ok(p) => p,
            Err(e) => {
                return Err(e);
            },
        };
        let dir = normalize_path(join_path(self.root.as_str(), self.config.response_dir.as_str()).as_str());
        if !path_starts_with(p.as_str(), dir.as_str()) {
            return Err(SandboxError::PathEscape(rel));
        }
        Ok(p)
    }

    // ── Read-safe path ──────────────────────────────────────────────────────

    /// Resolve `path` for a read operation.
    ///
    /// Relative paths are joined to the sandbox root. Absolute paths are
    /// accepted if they lie inside the sandbox root **or** inside one of
    /// the readonly roots, as written or once the links of the part of them
    /// that exists are resolved. Writes to the result path are never
    /// implicitly permitted.
    pub fn safe_read_path(&self, path: &str) -> (r: Result<String, SandboxError>)
        ensures
            read_allowed(
                read_target(self.root_spec(), path@),
                self.root_spec(),
                self.readonly_roots_view(),
            ) ==> r is Ok,
            match r {
                Ok(p) => p@ == read_target(self.root_spec(), path@) && read_shape_allowed(
                    self.root_spec(),
                    self.readonly_roots_view(),
                    path@,
                ),
                Err(e) => e matches SandboxError::ReadRestricted(m) && m@ == path@ && !read_allowed(
                    read_target(self.root_spec(), path@),
                    self.root_spec(),
                    self.readonly_roots_view(),
                ),
            },
    {
        let raw = read_source(self.root.as_str(), path);
        let normalized = normalize_path(raw.as_str());
        proof {
            let target = read_target(self.root@, path@);
            assert(render(read_comps(self.root@, path@)) == target);
            assert(is_resolution(read_comps(self.root@, path@), target));
        }
        if self.is_within_allowed_read(normalized.as_str()) {
            return Ok(normalized);
        }
        let n = normalize_components(&path_components(raw.as_str()));
        let resolved = resolve_links(&n);
        let r = read_path_resolved(self.root.as_str(), &self.readonly_roots, path, resolved.as_str());
        proof {
            if r is Ok {
                assert(is_resolution(read_comps(self.root@, path@), resolved@));
            }
        }
        r
    }

    fn is_within_allowed_read(&self, normalized: &str) -> (allowed: bool)
        ensures
            allowed == read_allowed(normalized@, self.root_spec(), self.readonly_roots_view()),
    {
        read_allowed_exec(normalized, self.root.as_str(), &self.readonly_roots)
    }
}

/// The path a read of `path` starts from: `path` itself when it is
/// absolute, else `path` joined to `root`.
fn read_source(root: &str, path: &str) -> (raw: String)
    ensures
        raw@ == (if has_root(path@) { path@ } else { join_spec(root@, path@) }),
{
    if path.unicode_len() > 0 && path.get_char(0) == '/' {
        String::from_str(path)
    } else {
        join_path(root, path)
    }
}

/// The normalized components a read of `path` goes to.
pub open spec fn read_comps(root: Seq<char>, path: Seq<char>) -> Seq<PathComp> {
    normalize_comps(components(if has_root(path) { path } else { join_spec(root, path) }))
}

/// Some path of the shape `is_resolution` admits for the read of `path` may
/// be read. The read target itself is of that shape, so this holds of every
/// target under `root` or one of `roots`; it records what was checked, not
/// what the disk holds.
pub open spec fn read_shape_allowed(root: Seq<char>, roots: Seq<Seq<char>>, path: Seq<char>) -> bool {
    exists|res: Seq<char>|
        #![trigger is_resolution(read_comps(root, path), res)]
        is_resolution(read_comps(root, path), res) && read_allowed(res, root, roots)
}

/// Whether `p` lies under `root` or under one of `roots`.
fn read_allowed_exec(p: &str, root: &str, roots: &Vec<String>) -> (allowed: bool)
    ensures
        allowed == read_allowed(p@, root@, strs_view(roots@)),
{
    if path_starts_with(p, root) {
        return true;
    }
    let mut i: usize = 0;
    while i < roots.len()
        invariant
            0 <= i <= roots.len(),
            forall|j: int| 0 <= j < i ==> !starts_with_spec(p@, #[trigger] strs_view(roots@)[j]),
        decreases roots.len() - i,
    {
        if path_starts_with(p, roots[i].as_str()) {
            proof {
                assert(starts_with_spec(p@, strs_view(roots@)[i as int]));
            }
            return true;
        }
        i = i + 1;
    }
    false
}

/// The read decision, given `resolved`, what the read target resolved to
/// on disk: `path` is accepted when its read target lies under `root` or
/// one of `roots`, or when `resolved` does; the target is what is returned.
pub fn read_path_resolved(root: &str, roots: &Vec<String>, path: &str, resolved: &str) -> (r: Result<
    String,
    SandboxError,
>)
    ensures
        match r {
            Ok(p) => p@ == read_target(root@, path@) && (read_allowed(
                p@,
                root@,
                strs_view(roots@),
            ) || read_allowed(resolved@, root@, strs_view(roots@))),
            Err(e) => e matches SandboxError::ReadRestricted(m) && m@ == path@ && !read_allowed(
                read_target(root@, path@),
                root@,
                strs_view(roots@),
            ) && !read_allowed(resolved@, root@, strs_view(roots@)),
        },
{
    let raw = read_source(root, path);
    let normalized = normalize_path(raw.as_str());
    if read_allowed_exec(normalized.as_str(), root, roots) || read_allowed_exec(resolved, root, roots) {
        Ok(normalized)
    } else {
        Err(SandboxError::ReadRestricted(String::from_str(path)))
    }
}

// ── Laws ────────────────────────────────────────────────────────────────────

/// Every path that may be written may also be read, and a read of it goes
/// to the same place as the write.
pub proof fn lemma_writable_is_readable(sb: &Sandbox, rel: Seq<char>)
    ensures
        starts_with_spec(write_target(sb.root_spec(), rel), sb.root_spec()) ==> {
            &&& read_target(sb.root_spec(), rel) == write_target(sb.root_spec(), rel)
            &&& read_allowed(
                write_target(sb.root_spec(), rel),
                sb.root_spec(),
                sb.readonly_roots_view(),
            )
        },
{
}

proof fn lemma_add_path_grows(list: Seq<Seq<char>>, p: Seq<char>)
    ensures
        list.is_prefix_of(add_path(list, p)),
        contains_path(add_path(list, p), p),
{
    if !contains_path(list, p) {
        assert(same_path(list.push(p)[list.len() as int], p));
    }
    assert(list =~= add_path(list, p).subrange(0, list.len() as int));
}

/// Adding paths keeps every path that was there, in place, and afterwards
/// a path equal to each added one is present.
pub proof fn lemma_add_paths_grows(list: Seq<Seq<char>>, ps: Seq<Seq<char>>)
    ensures
        list.is_prefix_of(add_paths(list, ps)),
        forall|j: int| 0 <= j < ps.len() ==> contains_path(add_paths(list, ps), #[trigger] ps[j]),
    decreases ps.len(),
{
    if ps.len() > 0 {
        let prev = add_paths(list, ps.drop_last());
        lemma_add_paths_grows(list, ps.drop_last());
        lemma_add_path_grows(prev, ps.last());
        let res = add_paths(list, ps);
        assert(list =~= res.subrange(0, list.len() as int)) by {
            assert forall|k: int| 0 <= k < list.len() implies list[k] == res[k] by {
                assert(list[k] == prev[k]);
                assert(prev[k] == res[k]);
            }
        }
        assert forall|j: int| 0 <= j < ps.len() implies contains_path(res, #[trigger] ps[j]) by {
            if j < ps.len() - 1 {
                assert(ps[j] == ps.drop_last()[j]);
                let k = choose|k: int| 0 <= k < prev.len() && same_path(#[trigger] prev[k], ps[j]);
                assert(res[k] == prev[k]);
            }
        }
    }
}

proof fn lemma_add_paths_present(list: Seq<Seq<char>>, ps: Seq<Seq<char>>)
    requires
        forall|j: int| 0 <= j < ps.len() ==> contains_path(list, #[trigger] ps[j]),
    ensures
        add_paths(list, ps) == list,
    decreases ps.len(),
{
    if ps.len() > 0 {
        assert forall|j: int| 0 <= j < ps.drop_last().len() implies contains_path(
            list,
            #[trigger] ps.drop_last()[j],
        ) by {
            assert(ps.drop_last()[j] == ps[j]);
        }
        lemma_add_paths_present(list, ps.drop_last());
        assert(contains_path(list, ps[ps.len() - 1]));
    }
}

/// Adding the same paths a second time changes nothing.
pub proof fn lemma_add_paths_idempotent(list: Seq<Seq<char>>, ps: Seq<Seq<char>>)
    ensures
        add_paths(add_paths(list, ps), ps) == add_paths(list, ps),
{
    lemma_add_paths_grows(list, ps);
    lemma_add_paths_present(add_paths(list, ps), ps);
}

/// Adding the same readonly directories twice leaves the readonly roots and
/// the configured directories as adding them once does.
pub proof fn lemma_add_readonly_dirs_idempotent(
    roots: Seq<Seq<char>>,
    config_dirs: Seq<Seq<char>>,
    dirs: Seq<ReadonlyDir>,
)
    ensures
        add_paths(add_paths(roots, dir_canonicals(dirs)), dir_canonicals(dirs)) == add_paths(
            roots,
            dir_canonicals(dirs),
        ),
        add_paths(add_paths(config_dirs, dir_paths(dirs)), dir_paths(dirs)) == add_paths(
            config_dirs,
            dir_paths(dirs),
        ),
{
    lemma_add_paths_idempotent(roots, dir_canonicals(dirs));
    lemma_add_paths_idempotent(config_dirs, dir_paths(dirs));
}

/// Adding readonly directories never takes away the right to read a path,
/// and every directory added is afterwards recorded in the configuration.
pub proof fn lemma_add_readonly_dirs_widens(
    p: Seq<char>,
    root: Seq<char>,
    roots: Seq<Seq<char>>,
    config_dirs: Seq<Seq<char>>,
    dirs: Seq<ReadonlyDir>,
)
    ensures
        read_allowed(p, root, roots) ==> read_allowed(
            p,
            root,
            add_paths(roots, dir_canonicals(dirs)),
        ),
        forall|j: int|
            0 <= j < dirs.len() ==> contains_path(
                add_paths(config_dirs, dir_paths(dirs)),
                #[trigger] dirs[j].path@,
            ),
{
    let ps = dir_canonicals(dirs);
    lemma_add_paths_grows(roots, ps);
    lemma_add_paths_grows(config_dirs, dir_paths(dirs));
    if within_any(p, roots) {
        let i = choose|i: int| 0 <= i < roots.len() && starts_with_spec(p, #[trigger] roots[i]);
        assert(add_paths(roots, ps)[i] == roots[i]);
    }
    assert forall|j: int| 0 <= j < dirs.len() implies contains_path(
        add_paths(config_dirs, dir_paths(dirs)),
        #[trigger] dirs[j].path@,
    ) by {
        assert(dir_paths(dirs)[j] == dirs[j].path@);
    }
}

/// A readonly directory that neither contains nor lies in the sandbox root
/// grants reads, never writes: an absolute path under it may be read, and
/// a write to it is refused (`safe_path` refuses every path whose write
/// target is not under the root).
pub proof fn lemma_readonly_paths_not_writable(
    root: Seq<char>,
    roots: Seq<Seq<char>>,
    i: int,
    p: Seq<char>,
)
    requires
        0 <= i < roots.len(),
        has_root(p),
        starts_with_spec(normalize_spec(p), roots[i]),
        !components(roots[i]).is_prefix_of(components(root)),
        !components(root).is_prefix_of(components(roots[i])),
    ensures
        read_allowed(read_target(root, p), root, roots),
        !starts_with_spec(write_target(root, p), root),
{
    let c = components(normalize_spec(p));
    let ro = components(roots[i]);
    let rt = components(root);
    assert(read_target(root, p) == normalize_spec(p));
    assert(write_target(root, p) == normalize_spec(p));
    if rt.is_prefix_of(c) {
        if ro.len() <= rt.len() {
            assert(ro =~= rt.subrange(0, ro.len() as int)) by {
                assert forall|k: int| 0 <= k < ro.len() implies ro[k] == rt[k] by {
                    assert(ro[k] == c[k]);
                    assert(rt[k] == c[k]);
                }
            }
        } else {
            assert(rt =~= ro.subrange(0, rt.len() as int)) by {
                assert forall|k: int| 0 <= k < rt.len() implies rt[k] == ro[k] by {
                    assert(ro[k] == c[k]);
                    assert(rt[k] == c[k]);
                }
            }
        }
    }
}

} // verus!
