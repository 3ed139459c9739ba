//! Lexical path handling with Unix semantics.
//!
//! A path is a string; its meaning is the sequence of components that the
//! standard library's `Path::components` yields for it on Unix. Everything
//! here works on the text alone and never touches the file system.
use vstd::prelude::*;

verus! {

// ── Mathematical model ──────────────────────────────────────────────────────

/// One component of a path, as a value.
pub enum PathComp {
    RootDir,
    CurDir,
    ParentDir,
    Normal(Seq<char>),
}

/// The pieces of `s` between separators, empty pieces included.
/// There is always at least one piece.
pub open spec fn split_pieces(s: Seq<char>) -> Seq<Seq<char>>
    decreases s.len(),
{
    if s.len() == 0 {
        seq![Seq::<char>::empty()]
    } else {
        let init = split_pieces(s.drop_last());
        if s.last() == '/' {
            init.push(Seq::<char>::empty())
        } else {
            init.update(init.len() - 1, init.last().push(s.last()))
        }
    }
}

pub open spec fn dot() -> Seq<char> {
    seq!['.']
}

pub open spec fn dot_dot() -> Seq<char> {
    seq!['.', '.']
}

/// The component a single piece stands for: empty pieces and `.` stand for none.
pub open spec fn piece_comp(p: Seq<char>) -> Seq<PathComp> {
    if p.len() == 0 || p == dot() {
        Seq::<PathComp>::empty()
    } else if p == dot_dot() {
        seq![PathComp::ParentDir]
    } else {
        seq![PathComp::Normal(p)]
    }
}

pub open spec fn pieces_comps(ps: Seq<Seq<char>>) -> Seq<PathComp>
    decreases ps.len(),
{
    if ps.len() == 0 {
        Seq::<PathComp>::empty()
    } else {
        pieces_comps(ps.drop_last()) + piece_comp(ps.last())
    }
}

/// A path is absolute when it starts with the separator.
pub open spec fn has_root(s: Seq<char>) -> bool {
    s.len() > 0 && s[0] == '/'
}

/// The components of `s`: a leading root, or a leading `.` of a relative
/// path, then one component per piece that is neither empty nor `.`.
pub open spec fn components(s: Seq<char>) -> Seq<PathComp> {
    let lead = if has_root(s) {
        seq![PathComp::RootDir]
    } else if split_pieces(s)[0] == dot() {
        seq![PathComp::CurDir]
    } else {
        Seq::<PathComp>::empty()
    };
    lead + pieces_comps(split_pieces(s))
}

/// Removing the last component, as `PathBuf::pop` does: only a normal
/// component can be removed; the root and the empty path stay as they are.
pub open spec fn pop_comp(out: Seq<PathComp>) -> Seq<PathComp> {
    if out.len() > 0 && out.last() is Normal {
        out.drop_last()
    } else {
        out
    }
}

pub open spec fn norm_step(out: Seq<PathComp>, c: PathComp) -> Seq<PathComp> {
    match c {
        PathComp::CurDir => out,
        PathComp::ParentDir => pop_comp(out),
        _ => out.push(c),
    }
}

/// Lexical normalization of a component sequence: `.` is dropped and `..`
/// removes the component before it.
pub open spec fn normalize_comps(cs: Seq<PathComp>) -> Seq<PathComp>
    decreases cs.len(),
{
    if cs.len() == 0 {
        Seq::<PathComp>::empty()
    } else {
        norm_step(normalize_comps(cs.drop_last()), cs.last())
    }
}

/// Appending a name to a path string, with a separator unless the string
/// is empty or already ends with one.
pub open spec fn push_name(p: Seq<char>, n: Seq<char>) -> Seq<char> {
    if p.len() == 0 || p.last() == '/' {
        p + n
    } else {
        p + seq!['/'] + n
    }
}

/// The path string that pushing the components one by one onto an empty path builds.
pub open spec fn render(cs: Seq<PathComp>) -> Seq<char>
    decreases cs.len(),
{
    if cs.len() == 0 {
        Seq::<char>::empty()
    } else {
        let p = render(cs.drop_last());
        match cs.last() {
            PathComp::RootDir => seq!['/'],
            PathComp::CurDir => push_name(p, dot()),
            PathComp::ParentDir => push_name(p, dot_dot()),
            PathComp::Normal(n) => push_name(p, n),
        }
    }
}

/// The path string built by pushing the components one by one onto `base`.
pub open spec fn push_comps(base: Seq<char>, cs: Seq<PathComp>) -> Seq<char>
    decreases cs.len(),
{
    if cs.len() == 0 {
        base
    } else {
        let p = push_comps(base, cs.drop_last());
        match cs.last() {
            PathComp::RootDir => seq!['/'],
            PathComp::CurDir => push_name(p, dot()),
            PathComp::ParentDir => push_name(p, dot_dot()),
            PathComp::Normal(n) => push_name(p, n),
        }
    }
}

/// The lexically normalized form of the path `s`.
pub open spec fn normalize_spec(s: Seq<char>) -> Seq<char> {
    render(normalize_comps(components(s)))
}

/// `base.join(rel)`: an absolute `rel` replaces `base`; otherwise `rel` is
/// appended with a separator where one is needed.
pub open spec fn join_spec(base: Seq<char>, rel: Seq<char>) -> Seq<char> {
    if has_root(rel) {
        rel
    } else {
        push_name(base, rel)
    }
}

/// `Path::starts_with`: the components of `base` are a prefix of those of `p`.
pub open spec fn starts_with_spec(p: Seq<char>, base: Seq<char>) -> bool {
    components(base).is_prefix_of(components(p))
}

/// Two paths are equal as paths when their components are equal.
pub open spec fn same_path(a: Seq<char>, b: Seq<char>) -> bool {
    components(a) == components(b)
}

// ── Executable representation ───────────────────────────────────────────────

/// One component of a path.
pub enum Component {
    RootDir,
    CurDir,
    ParentDir,
    Normal(String),
}

impl View for Component {
    type V = PathComp;

    open spec fn view(&self) -> PathComp {
        match self {
            Component::RootDir => PathComp::RootDir,
            Component::CurDir => PathComp::CurDir,
            Component::ParentDir => PathComp::ParentDir,
            Component::Normal(s) => PathComp::Normal(s@),
        }
    }
}

pub open spec fn comps_view(v: Seq<Component>) -> Seq<PathComp> {
    v.map_values(|c: Component| c@)
}

pub open spec fn strs_view(v: Seq<String>) -> Seq<Seq<char>> {
    v.map_values(|s: String| s@)
}

impl Component {
    pub fn duplicate(&self) -> (c: Component)
        ensures
            c@ == self@,
    {
        match self {
            Component::RootDir => Component::RootDir,
            Component::CurDir => Component::CurDir,
            Component::ParentDir => Component::ParentDir,
            Component::Normal(s) => Component::Normal(s.clone()),
        }
    }

    pub fn same_as(&self, other: &Component) -> (b: bool)
        ensures
            b == (self@ == other@),
    {
        match (self, other) {
            (Component::RootDir, Component::RootDir) => true,
            (Component::CurDir, Component::CurDir) => true,
            (Component::ParentDir, Component::ParentDir) => true,
            (Component::Normal(a), Component::Normal(b)) => a.eq(b),
            _ => false,
        }
    }
}

// ── Lemmas on the model ─────────────────────────────────────────────────────

pub proof fn lemma_split_nonempty(s: Seq<char>)
    ensures
        split_pieces(s).len() >= 1,
    decreases s.len(),
{
    if s.len() > 0 {
        lemma_split_nonempty(s.drop_last());
    }
}

/// Extending a path by a character changes only its last piece, or adds a piece.
proof fn lemma_split_take_step(s: Seq<char>, i: int)
    requires
        0 <= i < s.len(),
    ensures
        s.subrange(0, i + 1).drop_last() =~= s.subrange(0, i),
        s.subrange(0, i + 1).last() == s[i],
{
}

// ── Normal form ─────────────────────────────────────────────────────────────

/// A name that stands for itself as a single normal component.
pub open spec fn valid_name(n: Seq<char>) -> bool {
    &&& n.len() > 0
    &&& n != dot()
    &&& n != dot_dot()
    &&& forall|k: int| 0 <= k < n.len() ==> n[k] != '/'
}

/// Components as normalization leaves them: an optional leading root, then
/// normal components only.
pub open spec fn is_normal_form(cs: Seq<PathComp>) -> bool {
    forall|i: int|
        0 <= i < cs.len() ==> match #[trigger] cs[i] {
            PathComp::RootDir => i == 0,
            PathComp::Normal(n) => valid_name(n),
            _ => false,
        }
}

/// Components as parsing yields them: a root only in front, and normal
/// components with proper names.
pub open spec fn comps_ok(cs: Seq<PathComp>) -> bool {
    forall|i: int|
        0 <= i < cs.len() ==> match #[trigger] cs[i] {
            PathComp::RootDir => i == 0,
            PathComp::Normal(n) => valid_name(n),
            _ => true,
        }
}

pub open spec fn no_slash(p: Seq<char>) -> bool {
    forall|k: int| 0 <= k < p.len() ==> p[k] != '/'
}

proof fn lemma_split_no_slash(s: Seq<char>)
    ensures
        forall|j: int| 0 <= j < split_pieces(s).len() ==> no_slash(#[trigger] split_pieces(s)[j]),
    decreases s.len(),
{
    lemma_split_nonempty(s);
    if s.len() > 0 {
        lemma_split_no_slash(s.drop_last());
        lemma_split_nonempty(s.drop_last());
        let init = split_pieces(s.drop_last());
        if s.last() != '/' {
            assert(no_slash(init.last().push(s.last()))) by {
                assert(no_slash(init[init.len() - 1]));
            }
        }
    }
}

proof fn lemma_pieces_comps_ok(ps: Seq<Seq<char>>)
    requires
        forall|j: int| 0 <= j < ps.len() ==> no_slash(#[trigger] ps[j]),
    ensures
        forall|i: int|
            0 <= i < pieces_comps(ps).len() ==> match #[trigger] pieces_comps(ps)[i] {
                PathComp::ParentDir => true,
                PathComp::Normal(n) => valid_name(n),
                _ => false,
            },
    decreases ps.len(),
{
    if ps.len() > 0 {
        assert forall|j: int| 0 <= j < ps.drop_last().len() implies no_slash(
            #[trigger] ps.drop_last()[j],
        ) by {
            assert(ps.drop_last()[j] == ps[j]);
        }
        lemma_pieces_comps_ok(ps.drop_last());
        assert(no_slash(ps[ps.len() - 1]));
    }
}

/// Parsing yields a root only in front and normal components with proper names.
pub proof fn lemma_components_ok(s: Seq<char>)
    ensures
        comps_ok(components(s)),
{
    lemma_split_no_slash(s);
    lemma_pieces_comps_ok(split_pieces(s));
    let ps = pieces_comps(split_pieces(s));
    let cs = components(s);
    assert forall|i: int| 0 <= i < cs.len() implies match #[trigger] cs[i] {
        PathComp::RootDir => i == 0,
        PathComp::Normal(n) => valid_name(n),
        _ => true,
    } by {
        let lead_len = cs.len() - ps.len();
        if i >= lead_len {
            assert(cs[i] == ps[i - lead_len]);
        }
    }
}

/// Normalization of well-formed components yields the normal form.
pub proof fn lemma_normalize_normal_form(cs: Seq<PathComp>)
    requires
        comps_ok(cs),
    ensures
        is_normal_form(normalize_comps(cs)),
    decreases cs.len(),
{
    if cs.len() > 0 {
        let prev = cs.drop_last();
        assert(comps_ok(prev)) by {
            assert forall|i: int| 0 <= i < prev.len() implies match #[trigger] prev[i] {
                PathComp::RootDir => i == 0,
                PathComp::Normal(n) => valid_name(n),
                _ => true,
            } by {
                assert(prev[i] == cs[i]);
            }
        }
        lemma_normalize_normal_form(prev);
        let out = normalize_comps(prev);
        let c = cs[cs.len() - 1];
        let res = normalize_comps(cs);
        match c {
            PathComp::RootDir => {
                assert(cs.len() == 1);
                assert(prev.len() == 0);
                assert(res =~= seq![PathComp::RootDir]);
            },
            PathComp::CurDir => {},
            PathComp::ParentDir => {
                assert forall|i: int| 0 <= i < res.len() implies match #[trigger] res[i] {
                    PathComp::RootDir => i == 0,
                    PathComp::Normal(n) => valid_name(n),
                    _ => false,
                } by {
                    assert(res[i] == out[i]);
                }
            },
            PathComp::Normal(n) => {
                assert forall|i: int| 0 <= i < res.len() implies match #[trigger] res[i] {
                    PathComp::RootDir => i == 0,
                    PathComp::Normal(n) => valid_name(n),
                    _ => false,
                } by {
                    if i < out.len() {
                        assert(res[i] == out[i]);
                    }
                }
            },
        }
    }
}

/// Normalizing components already in normal form changes nothing.
pub proof fn lemma_normalize_fixes_normal_form(cs: Seq<PathComp>)
    requires
        is_normal_form(cs),
    ensures
        normalize_comps(cs) == cs,
    decreases cs.len(),
{
    if cs.len() > 0 {
        let prev = cs.drop_last();
        assert(is_normal_form(prev)) by {
            assert forall|i: int| 0 <= i < prev.len() implies match #[trigger] prev[i] {
                PathComp::RootDir => i == 0,
                PathComp::Normal(n) => valid_name(n),
                _ => false,
            } by {
                assert(prev[i] == cs[i]);
            }
        }
        lemma_normalize_fixes_normal_form(prev);
        let c = cs[cs.len() - 1];
        assert(match c {
            PathComp::RootDir => true,
            PathComp::Normal(n) => true,
            _ => false,
        });
        assert(prev.push(c) =~= cs);
    }
}

/// Appending characters without a separator only lengthens the last piece.
proof fn lemma_split_append_plain(p: Seq<char>, q: Seq<char>)
    requires
        no_slash(q),
    ensures
        split_pieces(p + q) == split_pieces(p).update(
            split_pieces(p).len() - 1,
            split_pieces(p).last() + q,
        ),
    decreases q.len(),
{
    lemma_split_nonempty(p);
    if q.len() == 0 {
        assert(p + q =~= p);
        assert(split_pieces(p).last() + q =~= split_pieces(p).last());
        assert(split_pieces(p).update(split_pieces(p).len() - 1, split_pieces(p).last())
            =~= split_pieces(p));
    } else {
        let q1 = q.drop_last();
        let c = q.last();
        assert(no_slash(q1)) by {
            assert forall|k: int| 0 <= k < q1.len() implies q1[k] != '/' by {
                assert(q1[k] == q[k]);
            }
        }
        lemma_split_append_plain(p, q1);
        assert(c != '/') by {
            assert(q[q.len() - 1] != '/');
        }
        assert((p + q).drop_last() =~= p + q1);
        assert((p + q).last() == c);
        let ps = split_pieces(p);
        let init = split_pieces(p + q1);
        assert(init =~= ps.update(ps.len() - 1, ps.last() + q1));
        assert(init.last() == ps.last() + q1);
        assert((ps.last() + q1).push(c) =~= ps.last() + q);
        assert(split_pieces(p + q) =~= ps.update(ps.len() - 1, ps.last() + q));
    }
}

/// The components of a normal form without its root.
pub open spec fn names_of(cs: Seq<PathComp>) -> Seq<PathComp> {
    if cs.len() > 0 && cs[0] is RootDir {
        cs.skip(1)
    } else {
        cs
    }
}

proof fn lemma_render_pieces(cs: Seq<PathComp>)
    requires
        is_normal_form(cs),
    ensures
        (render(cs).len() == 0) == (cs.len() == 0),
        has_root(render(cs)) == (cs.len() > 0 && cs[0] is RootDir),
        (render(cs).len() > 0 && render(cs).last() == '/') == (cs =~= seq![PathComp::RootDir]),
        pieces_comps(split_pieces(render(cs))) == names_of(cs),
        split_pieces(render(cs))[0] == (if cs.len() > 0 && cs[0] is Normal {
            cs[0]->Normal_0
        } else {
            Seq::<char>::empty()
        }),
    decreases cs.len(),
{
    let r = render(cs);
    if cs.len() == 0 {
        assert(split_pieces(r) =~= seq![Seq::<char>::empty()]);
        let e = seq![Seq::<char>::empty()];
        assert(e.drop_last() =~= Seq::<Seq<char>>::empty());
        assert(e.last() == Seq::<char>::empty());
        assert(piece_comp(Seq::<char>::empty()) =~= Seq::<PathComp>::empty());
        assert(pieces_comps(Seq::<Seq<char>>::empty()) =~= Seq::<PathComp>::empty());
        assert(pieces_comps(e) == pieces_comps(e.drop_last()) + piece_comp(e.last()));
        assert(pieces_comps(e) =~= Seq::<PathComp>::empty());
    } else {
        let m = cs.drop_last();
        let c = cs[cs.len() - 1];
        assert(is_normal_form(m)) by {
            assert forall|i: int| 0 <= i < m.len() implies match #[trigger] m[i] {
                PathComp::RootDir => i == 0,
                PathComp::Normal(n) => valid_name(n),
                _ => false,
            } by {
                assert(m[i] == cs[i]);
            }
        }
        lemma_render_pieces(m);
        let rm = render(m);
        lemma_split_nonempty(rm);
        match c {
            PathComp::RootDir => {
                assert(cs.len() == 1);
                assert(cs =~= seq![PathComp::RootDir]);
                assert(r =~= seq!['/']);
                assert(r.drop_last() =~= Seq::<char>::empty());
                assert(split_pieces(Seq::<char>::empty()) =~= seq![Seq::<char>::empty()]);
                let sp = split_pieces(r);
                assert(sp =~= seq![Seq::<char>::empty(), Seq::<char>::empty()]);
                assert(sp.drop_last() =~= seq![Seq::<char>::empty()]);
                assert(sp.drop_last().drop_last() =~= Seq::<Seq<char>>::empty());
                assert(pieces_comps(sp) =~= Seq::<PathComp>::empty());
                assert(names_of(cs) =~= Seq::<PathComp>::empty());
            },
            PathComp::Normal(x) => {
                assert(valid_name(x));
                assert(no_slash(x));
                let sm = split_pieces(rm);
                if rm.len() == 0 || rm.last() == '/' {
                    assert(r == rm + x);
                    lemma_split_append_plain(rm, x);
                    if m.len() == 0 {
                        assert(sm =~= seq![Seq::<char>::empty()]);
                        assert(split_pieces(r) =~= seq![x]);
                        assert(seq![x].drop_last() =~= Seq::<Seq<char>>::empty());
                        assert(seq![x].last() == x);
                        assert(piece_comp(x) =~= seq![PathComp::Normal(x)]);
                        assert(pieces_comps(Seq::<Seq<char>>::empty()) =~= Seq::<PathComp>::empty());
                        assert(pieces_comps(seq![x]) =~= Seq::<PathComp>::empty() + piece_comp(x));
                        assert(pieces_comps(seq![x]) =~= piece_comp(x));
                        assert(names_of(cs) =~= seq![PathComp::Normal(x)]);
                        assert(r =~= x);
                    } else {
                        assert(m =~= seq![PathComp::RootDir]);
                        assert(rm =~= seq!['/']);
                        assert(rm.drop_last() =~= Seq::<char>::empty());
                        assert(split_pieces(Seq::<char>::empty()) =~= seq![Seq::<char>::empty()]);
                        assert(sm =~= seq![Seq::<char>::empty(), Seq::<char>::empty()]);
                        let sp = split_pieces(r);
                        assert(sp =~= seq![Seq::<char>::empty(), x]);
                        assert(sp.drop_last() =~= seq![Seq::<char>::empty()]);
                        assert(sp.drop_last().drop_last() =~= Seq::<Seq<char>>::empty());
                        let e = seq![Seq::<char>::empty()];
                        assert(e.last() == Seq::<char>::empty());
                        assert(piece_comp(Seq::<char>::empty()) =~= Seq::<PathComp>::empty());
                        assert(pieces_comps(Seq::<Seq<char>>::empty()) =~= Seq::<PathComp>::empty());
                        assert(pieces_comps(e) =~= Seq::<PathComp>::empty());
                        assert(sp.last() == x);
                        assert(piece_comp(x) =~= seq![PathComp::Normal(x)]);
                        assert(pieces_comps(sp) == pieces_comps(e) + piece_comp(x));
                        assert(pieces_comps(sp) =~= seq![PathComp::Normal(x)]);
                        assert(names_of(cs) =~= seq![PathComp::Normal(x)]);
                        assert(r[0] == '/');
                    }
                } else {
                    let rs = rm.push('/');
                    assert(r == rm + seq!['/'] + x);
                    assert(rm + seq!['/'] =~= rs);
                    assert(rs.drop_last() =~= rm);
                    assert(split_pieces(rs) == sm.push(Seq::<char>::empty()));
                    lemma_split_append_plain(rs, x);
                    let sp = split_pieces(r);
                    assert(Seq::<char>::empty() + x =~= x);
                    assert(sp =~= sm.push(x));
                    assert(sp.drop_last() =~= sm);
                    assert(pieces_comps(sp) == pieces_comps(sm) + piece_comp(x));
                    assert(piece_comp(x) =~= seq![PathComp::Normal(x)]);
                    if m[0] is RootDir {
                        assert(names_of(cs) =~= m.skip(1).push(PathComp::Normal(x)));
                    } else {
                        assert(names_of(cs) =~= m.push(PathComp::Normal(x)));
                    }
                    assert(sp[0] == sm[0]);
                    assert(r[0] == rm[0]);
                    assert(cs[0] == m[0]);
                }
                assert(r.last() == x.last());
                assert(x[x.len() - 1] != '/');
            },
            _ => {
                assert(false);
            },
        }
    }
}

/// Reading back the string that normal-form components render to yields
/// the same components.
pub proof fn lemma_components_of_render(cs: Seq<PathComp>)
    requires
        is_normal_form(cs),
    ensures
        components(render(cs)) == cs,
{
    lemma_render_pieces(cs);
    let r = render(cs);
    if cs.len() > 0 && cs[0] is RootDir {
        assert(seq![PathComp::RootDir] + cs.skip(1) =~= cs);
    } else {
        if cs.len() > 0 {
            assert(cs[0] is Normal);
            assert(valid_name(cs[0]->Normal_0));
        }
        assert(split_pieces(r)[0] != dot());
        assert(Seq::<PathComp>::empty() + cs =~= cs);
    }
}

/// Normalization leaves no `.` or `..` component, and a root only in front.
pub proof fn lemma_normalized_is_normal_form(s: Seq<char>)
    ensures
        is_normal_form(components(normalize_spec(s))),
        components(normalize_spec(s)) == normalize_comps(components(s)),
{
    lemma_components_ok(s);
    lemma_normalize_normal_form(components(s));
    lemma_components_of_render(normalize_comps(components(s)));
}

/// Normalizing a normalized path changes nothing.
pub proof fn lemma_normalize_idempotent(s: Seq<char>)
    ensures
        normalize_spec(normalize_spec(s)) == normalize_spec(s),
{
    lemma_normalized_is_normal_form(s);
    lemma_normalize_fixes_normal_form(normalize_comps(components(s)));
}

// ── Joining keeps the base ──────────────────────────────────────────────────

proof fn lemma_split_concat(p: Seq<char>, q: Seq<char>)
    ensures
        split_pieces(p + q) == split_pieces(p).drop_last() + seq![
            split_pieces(p).last() + split_pieces(q)[0],
        ] + split_pieces(q).skip(1),
    decreases q.len(),
{
    lemma_split_nonempty(p);
    lemma_split_nonempty(q);
    let sp = split_pieces(p);
    if q.len() == 0 {
        assert(p + q =~= p);
        assert(split_pieces(q) =~= seq![Seq::<char>::empty()]);
        assert(sp.last() + Seq::<char>::empty() =~= sp.last());
        assert(sp.drop_last() + seq![sp.last()] + seq![Seq::<char>::empty()].skip(1) =~= sp);
    } else {
        let q1 = q.drop_last();
        let c = q.last();
        lemma_split_concat(p, q1);
        lemma_split_nonempty(q1);
        assert((p + q).drop_last() =~= p + q1);
        assert((p + q).last() == c);
        let a = sp.drop_last();
        let m = sp.last();
        let r1 = split_pieces(q1);
        let s1 = split_pieces(p + q1);
        assert(s1 == a + seq![m + r1[0]] + r1.skip(1));
        if c == '/' {
            assert(split_pieces(q) == r1.push(Seq::<char>::empty()));
            assert(split_pieces(q)[0] == r1[0]);
            assert(split_pieces(q).skip(1) =~= r1.skip(1).push(Seq::<char>::empty()));
            assert(split_pieces(p + q) == s1.push(Seq::<char>::empty()));
            assert(split_pieces(p + q) =~= a + seq![m + r1[0]] + split_pieces(q).skip(1));
        } else {
            let rq = r1.update(r1.len() - 1, r1.last().push(c));
            assert(split_pieces(q) == rq);
            assert(split_pieces(p + q) == s1.update(s1.len() - 1, s1.last().push(c)));
            if r1.len() == 1 {
                assert(s1.last() == m + r1[0]);
                assert(rq[0] == r1[0].push(c));
                assert((m + r1[0]).push(c) =~= m + r1[0].push(c));
                assert(rq.skip(1) =~= Seq::<Seq<char>>::empty());
                assert(r1.skip(1) =~= Seq::<Seq<char>>::empty());
                assert(split_pieces(p + q) =~= a + seq![m + rq[0]] + rq.skip(1));
            } else {
                assert(rq[0] == r1[0]);
                assert(s1.last() == r1.last());
                assert(rq.skip(1) =~= r1.skip(1).update(r1.len() - 2, r1.last().push(c)));
                assert(split_pieces(p + q) =~= a + seq![m + rq[0]] + rq.skip(1));
            }
        }
    }
}

proof fn lemma_pieces_comps_concat(a: Seq<Seq<char>>, b: Seq<Seq<char>>)
    ensures
        pieces_comps(a + b) == pieces_comps(a) + pieces_comps(b),
    decreases b.len(),
{
    if b.len() == 0 {
        assert(a + b =~= a);
        assert(pieces_comps(a) + Seq::<PathComp>::empty() =~= pieces_comps(a));
    } else {
        lemma_pieces_comps_concat(a, b.drop_last());
        assert((a + b).drop_last() =~= a + b.drop_last());
        assert((a + b).last() == b.last());
        assert(pieces_comps(a + b) =~= pieces_comps(a) + pieces_comps(b));
    }
}

/// The components of a relative path appended to a non-empty base are the
/// base's components followed by those of the path's pieces.
proof fn lemma_components_join(base: Seq<char>, rel: Seq<char>)
    requires
        base.len() > 0,
        !has_root(rel),
    ensures
        components(join_spec(base, rel)) == components(base) + pieces_comps(split_pieces(rel)),
{
    let j = join_spec(base, rel);
    let sb = split_pieces(base);
    let r = split_pieces(rel);
    lemma_split_nonempty(base);
    lemma_split_nonempty(rel);
    let bp: Seq<Seq<char>> = if base.last() == '/' {
        sb.drop_last()
    } else {
        sb
    };
    if base.last() == '/' {
        assert(j == base + rel);
        lemma_split_concat(base, rel);
        lemma_split_nonempty(base.drop_last());
        assert(sb == split_pieces(base.drop_last()).push(Seq::<char>::empty()));
        assert(sb.last() =~= Seq::<char>::empty());
        assert(Seq::<char>::empty() + r[0] =~= r[0]);
        assert(seq![r[0]] + r.skip(1) =~= r);
        assert(split_pieces(j) =~= bp + r);
        assert(pieces_comps(sb) == pieces_comps(sb.drop_last()) + piece_comp(sb.last()));
        assert(piece_comp(Seq::<char>::empty()) =~= Seq::<PathComp>::empty());
        assert(pieces_comps(sb) =~= pieces_comps(bp));
        assert(bp.len() >= 1);
        assert(bp[0] == sb[0]);
    } else {
        let bs = base.push('/');
        assert(j == base + seq!['/'] + rel);
        assert(base + seq!['/'] =~= bs);
        assert(bs.drop_last() =~= base);
        assert(split_pieces(bs) == sb.push(Seq::<char>::empty()));
        lemma_split_concat(bs, rel);
        assert(sb.push(Seq::<char>::empty()).drop_last() =~= sb);
        assert(Seq::<char>::empty() + r[0] =~= r[0]);
        assert(seq![r[0]] + r.skip(1) =~= r);
        assert(split_pieces(j) =~= bp + r);
    }
    lemma_pieces_comps_concat(bp, r);
    assert(j[0] == base[0]);
    assert(split_pieces(j)[0] == sb[0]);
    assert(components(j) =~= components(base) + pieces_comps(r));
}

/// Normalizing components followed by names only normalizes the front.
proof fn lemma_normalize_append_names(c: Seq<PathComp>, d: Seq<PathComp>)
    requires
        forall|i: int| 0 <= i < d.len() ==> #[trigger] d[i] is Normal,
    ensures
        normalize_comps(c + d) == normalize_comps(c) + d,
    decreases d.len(),
{
    if d.len() == 0 {
        assert(c + d =~= c);
        assert(normalize_comps(c) + d =~= normalize_comps(c));
    } else {
        let d1 = d.drop_last();
        assert forall|i: int| 0 <= i < d1.len() implies #[trigger] d1[i] is Normal by {
            assert(d1[i] == d[i]);
        }
        lemma_normalize_append_names(c, d1);
        assert((c + d).drop_last() =~= c + d1);
        assert((c + d).last() == d.last());
        assert(d[d.len() - 1] is Normal);
        assert(normalize_comps(c + d) =~= normalize_comps(c) + d);
    }
}

/// Joining a relative path without `..` components to a base and
/// normalizing gives a path at or below the normalized base.
pub proof fn lemma_join_stays_below_base(base: Seq<char>, rel: Seq<char>)
    requires
        !has_root(rel),
        forall|i: int| 0 <= i < components(rel).len() ==> !(#[trigger] components(rel)[i] is ParentDir),
    ensures
        starts_with_spec(normalize_spec(join_spec(base, rel)), normalize_spec(base)),
{
    lemma_components_ok(base);
    lemma_normalize_normal_form(components(base));
    let n = normalize_comps(components(base));
    lemma_components_of_render(n);
    lemma_components_ok(rel);
    lemma_normalized_is_normal_form(join_spec(base, rel));
    if base.len() == 0 {
        lemma_components_of_render(Seq::<PathComp>::empty());
        assert(components(base) == components(render(Seq::<PathComp>::empty())));
        assert(n =~= Seq::<PathComp>::empty());
    } else {
        lemma_components_join(base, rel);
        let r = split_pieces(rel);
        let d = pieces_comps(r);
        lemma_split_no_slash(rel);
        lemma_pieces_comps_ok(r);
        let lead_len = components(rel).len() - d.len();
        assert forall|i: int| 0 <= i < d.len() implies #[trigger] d[i] is Normal by {
            assert(d[i] == components(rel)[i + lead_len]);
        }
        lemma_normalize_append_names(components(base), d);
        let nj = normalize_comps(components(join_spec(base, rel)));
        assert(nj == n + d);
        assert(n =~= nj.subrange(0, n.len() as int));
    }
}

// ── Executable functions ────────────────────────────────────────────────────

/// Splits `s` at every separator.
pub fn split_pieces_exec(s: &str) -> (pieces: Vec<String>)
    ensures
        strs_view(pieces@) == split_pieces(s@),
{
    let n = s.unicode_len();
    let mut pieces: Vec<String> = Vec::new();
    let mut start: usize = 0;
    let mut i: usize = 0;
    proof {
        assert(s@.subrange(0, 0) =~= Seq::<char>::empty());
        assert(strs_view(pieces@).push(s@.subrange(0, 0)) =~= seq![Seq::<char>::empty()]);
    }
    while i < n
        invariant
            n == s@.len(),
            start <= i <= n,
            strs_view(pieces@).push(s@.subrange(start as int, i as int)) == split_pieces(
                s@.subrange(0, i as int),
            ),
        decreases n - i,
    {
        let c = s.get_char(i);
        let ghost before = strs_view(pieces@);
        proof {
            lemma_split_take_step(s@, i as int);
            lemma_split_nonempty(s@.subrange(0, i as int));
        }
        let ghost old_start = start;
        if c == '/' {
            let piece = String::from_str(s.substring_char(start, i));
            pieces.push(piece);
            start = i + 1;
            proof {
                assert(strs_view(pieces@) =~= before.push(s@.subrange(old_start as int, i as int)));
                assert(s@.subrange(start as int, (i + 1) as int) =~= Seq::<char>::empty());
            }
        } else {
            proof {
                assert(s@.subrange(start as int, (i + 1) as int) =~= s@.subrange(
                    start as int,
                    i as int,
                ).push(c));
            }
        }
        i = i + 1;
        proof {
            assert(strs_view(pieces@).push(s@.subrange(start as int, i as int)) =~= split_pieces(
                s@.subrange(0, i as int),
            ));
        }
    }
    let last = String::from_str(s.substring_char(start, n));
    let ghost before = strs_view(pieces@);
    pieces.push(last);
    proof {
        assert(strs_view(pieces@) =~= before.push(s@.subrange(start as int, n as int)));
        assert(s@.subrange(0, n as int) =~= s@);
    }
    pieces
}

fn is_dot(s: &str) -> (b: bool)
    ensures
        b == (s@ == dot()),
{
    if s.unicode_len() == 1 {
        let c = s.get_char(0);
        proof {
            if c == '.' {
                assert(s@ =~= dot());
            }
        }
        c == '.'
    } else {
        false
    }
}

fn is_dot_dot(s: &str) -> (b: bool)
    ensures
        b == (s@ == dot_dot()),
{
    if s.unicode_len() == 2 {
        let c0 = s.get_char(0);
        let c1 = s.get_char(1);
        proof {
            if c0 == '.' && c1 == '.' {
                assert(s@ =~= dot_dot());
            }
        }
        c0 == '.' && c1 == '.'
    } else {
        false
    }
}

/// Appends the component that `piece` stands for, if any.
fn push_piece_comp(out: &mut Vec<Component>, piece: &String)
    ensures
        comps_view(final(out)@) == comps_view(old(out)@) + piece_comp(piece@),
{
    let ghost before = comps_view(out@);
    let p = piece.as_str();
    if p.unicode_len() == 0 || is_dot(p) {
        proof {
            assert(comps_view(out@) =~= before + piece_comp(piece@));
        }
    } else if is_dot_dot(p) {
        out.push(Component::ParentDir);
        proof {
            assert(comps_view(out@) =~= before + piece_comp(piece@));
        }
    } else {
        out.push(Component::Normal(piece.clone()));
        proof {
            assert(comps_view(out@) =~= before + piece_comp(piece@));
        }
    }
}

/// The components of the path `s`, as `Path::components` yields them on Unix.
pub fn path_components(s: &str) -> (comps: Vec<Component>)
    ensures
        comps_view(comps@) == components(s@),
{
    let pieces = split_pieces_exec(s);
    proof {
        lemma_split_nonempty(s@);
    }
    let mut out: Vec<Component> = Vec::new();
    if s.unicode_len() > 0 && s.get_char(0) == '/' {
        out.push(Component::RootDir);
    } else if is_dot(pieces[0].as_str()) {
        out.push(Component::CurDir);
    }
    let ghost lead = comps_view(out@);
    let ghost ps = strs_view(pieces@);
    proof {
        assert(lead == (if has_root(s@) {
            seq![PathComp::RootDir]
        } else if split_pieces(s@)[0] == dot() {
            seq![PathComp::CurDir]
        } else {
            Seq::<PathComp>::empty()
        }));
        assert(ps.take(0) =~= Seq::<Seq<char>>::empty());
        assert(comps_view(out@) =~= lead + pieces_comps(ps.take(0)));
    }
    let mut i: usize = 0;
    while i < pieces.len()
        invariant
            0 <= i <= pieces.len(),
            ps == strs_view(pieces@),
            comps_view(out@) == lead + pieces_comps(ps.take(i as int)),
        decreases pieces.len() - i,
    {
        push_piece_comp(&mut out, &pieces[i]);
        proof {
            assert(ps.take(i + 1).drop_last() =~= ps.take(i as int));
            assert(ps.take(i + 1).last() == pieces@[i as int]@);
            assert(comps_view(out@) =~= lead + pieces_comps(ps.take(i + 1)));
        }
        i = i + 1;
    }
    proof {
        assert(ps.take(pieces.len() as int) =~= ps);
    }
    out
}

/// Lexical normalization of a component list.
pub fn normalize_components(cs: &Vec<Component>) -> (out: Vec<Component>)
    ensures
        comps_view(out@) == normalize_comps(comps_view(cs@)),
{
    let ghost v = comps_view(cs@);
    let mut out: Vec<Component> = Vec::new();
    let mut i: usize = 0;
    proof {
        assert(v.take(0) =~= Seq::<PathComp>::empty());
        assert(comps_view(out@) =~= normalize_comps(v.take(0)));
    }
    while i < cs.len()
        invariant
            0 <= i <= cs.len(),
            v == comps_view(cs@),
            comps_view(out@) == normalize_comps(v.take(i as int)),
        decreases cs.len() - i,
    {
        let ghost before = comps_view(out@);
        match &cs[i] {
            Component::CurDir => {},
            Component::ParentDir => {
                let n = out.len();
                if n > 0 {
                    let last_is_normal = match &out[n - 1] {
                        Component::Normal(_) => true,
                        _ => false,
                    };
                    if last_is_normal {
                        out.pop();
                        proof {
                            assert(comps_view(out@) =~= before.drop_last());
                        }
                    }
                }
            },
            c => {
                out.push(c.duplicate());
                proof {
                    assert(comps_view(out@) =~= before.push(c@));
                }
            },
        }
        proof {
            assert(v.take(i + 1).drop_last() =~= v.take(i as int));
            assert(v.take(i + 1).last() == cs@[i as int]@);
            assert(comps_view(out@) == norm_step(before, cs@[i as int]@));
        }
        i = i + 1;
    }
    proof {
        assert(v.take(cs.len() as int) =~= v);
    }
    out
}

/// Appends `n` to the path string `s` with a separator where needed.
fn push_name_exec(s: &mut String, n: &str)
    ensures
        final(s)@ == push_name(old(s)@, n@),
{
    let len = s.as_str().unicode_len();
    if len == 0 || s.as_str().get_char(len - 1) == '/' {
        s.append(n);
    } else {
        s.append("/");
        s.append(n);
        proof {
            reveal_strlit("/");
            assert(final(s)@ =~= old(s)@ + seq!['/'] + n@);
        }
    }
}

/// The path string built by pushing each component onto an empty path.
pub fn render_components(cs: &Vec<Component>) -> (s: String)
    ensures
        s@ == render(comps_view(cs@)),
{
    let ghost v = comps_view(cs@);
    let mut s = String::new();
    let mut i: usize = 0;
    proof {
        assert(v.take(0) =~= Seq::<PathComp>::empty());
    }
    while i < cs.len()
        invariant
            0 <= i <= cs.len(),
            v == comps_view(cs@),
            s@ == render(v.take(i as int)),
        decreases cs.len() - i,
    {
        proof {
            assert(v.take(i + 1).drop_last() =~= v.take(i as int));
            assert(v.take(i + 1).last() == cs@[i as int]@);
        }
        match &cs[i] {
            Component::RootDir => {
                s = String::from_str("/");
                proof {
                    reveal_strlit("/");
                    assert(s@ =~= seq!['/']);
                }
            },
            Component::CurDir => {
                push_name_exec(&mut s, ".");
                proof {
                    reveal_strlit(".");
                    assert("."@ =~= dot());
                }
            },
            Component::ParentDir => {
                push_name_exec(&mut s, "..");
                proof {
                    reveal_strlit("..");
                    assert(".."@ =~= dot_dot());
                }
            },
            Component::Normal(n) => {
                push_name_exec(&mut s, n.as_str());
            },
        }
        i = i + 1;
    }
    proof {
        assert(v.take(cs.len() as int) =~= v);
    }
    s
}

/// Pushes the components of `cs` from index `from` on onto the path string `s`.
pub fn push_components_from(s: &mut String, cs: &Vec<Component>, from: usize)
    requires
        from <= cs.len(),
    ensures
        final(s)@ == push_comps(old(s)@, comps_view(cs@).skip(from as int)),
{
    let ghost v = comps_view(cs@);
    let ghost s0 = s@;
    let mut i: usize = from;
    proof {
        assert(v.subrange(from as int, from as int) =~= Seq::<PathComp>::empty());
    }
    while i < cs.len()
        invariant
            from <= i <= cs.len(),
            v == comps_view(cs@),
            s@ == push_comps(s0, v.subrange(from as int, i as int)),
        decreases cs.len() - i,
    {
        proof {
            assert(v.subrange(from as int, i + 1).drop_last() =~= v.subrange(from as int, i as int));
            assert(v.subrange(from as int, i + 1).last() == cs@[i as int]@);
        }
        match &cs[i] {
            Component::RootDir => {
                *s = String::from_str("/");
                proof {
                    reveal_strlit("/");
                    assert(s@ =~= seq!['/']);
                }
            },
            Component::CurDir => {
                push_name_exec(s, ".");
                proof {
                    reveal_strlit(".");
                    assert("."@ =~= dot());
                }
            },
            Component::ParentDir => {
                push_name_exec(s, "..");
                proof {
                    reveal_strlit("..");
                    assert(".."@ =~= dot_dot());
                }
            },
            Component::Normal(n) => {
                push_name_exec(s, n.as_str());
            },
        }
        i = i + 1;
    }
    proof {
        assert(v.subrange(from as int, cs.len() as int) =~= v.skip(from as int));
    }
}

/// The first `k` components of `cs`.
pub fn take_components(cs: &Vec<Component>, k: usize) -> (out: Vec<Component>)
    requires
        k <= cs.len(),
    ensures
        comps_view(out@) == comps_view(cs@).take(k as int),
{
    let mut out: Vec<Component> = Vec::new();
    let mut i: usize = 0;
    while i < k
        invariant
            i <= k <= cs.len(),
            comps_view(out@) == comps_view(cs@).take(i as int),
        decreases k - i,
    {
        let ghost before = comps_view(out@);
        out.push(cs[i].duplicate());
        proof {
            assert(comps_view(out@) =~= before.push(cs@[i as int]@));
            assert(comps_view(cs@).take(i + 1) =~= comps_view(cs@).take(i as int).push(cs@[i as int]@));
        }
        i = i + 1;
    }
    out
}

/// Lexically normalize a path (resolve `.` and `..`) without touching the
/// file system, making it safe to use before a file exists.
pub fn normalize_path(path: &str) -> (normalized: String)
    ensures
        normalized@ == normalize_spec(path@),
{
    let comps = path_components(path);
    let out = normalize_components(&comps);
    render_components(&out)
}

/// `base.join(rel)`.
pub fn join_path(base: &str, rel: &str) -> (joined: String)
    ensures
        joined@ == join_spec(base@, rel@),
{
    if rel.unicode_len() > 0 && rel.get_char(0) == '/' {
        String::from_str(rel)
    } else {
        let mut s = String::from_str(base);
        push_name_exec(&mut s, rel);
        s
    }
}

/// Whether the components of `base` are a prefix of those of `p`.
pub fn comps_prefix(base: &Vec<Component>, p: &Vec<Component>) -> (b: bool)
    ensures
        b == comps_view(base@).is_prefix_of(comps_view(p@)),
{
    if base.len() > p.len() {
        return false;
    }
    let mut i: usize = 0;
    while i < base.len()
        invariant
            base.len() <= p.len(),
            0 <= i <= base.len(),
            forall|j: int| 0 <= j < i ==> base@[j]@ == p@[j]@,
        decreases base.len() - i,
    {
        if !base[i].same_as(&p[i]) {
            proof {
                assert(comps_view(base@)[i as int] != comps_view(p@).subrange(
                    0,
                    base.len() as int,
                )[i as int]);
            }
            return false;
        }
        i = i + 1;
    }
    proof {
        assert(comps_view(base@) =~= comps_view(p@).subrange(0, base.len() as int));
    }
    true
}

/// `Path::starts_with`: whether `p` lies at or below `base`, component-wise.
pub fn path_starts_with(p: &str, base: &str) -> (b: bool)
    ensures
        b == starts_with_spec(p@, base@),
{
    let pc = path_components(p);
    let bc = path_components(base);
    comps_prefix(&bc, &pc)
}

/// Whether two paths have the same components (`Path`'s equality).
pub fn paths_equal(a: &str, b: &str) -> (eq: bool)
    ensures
        eq == same_path(a@, b@),
{
    let ac = path_components(a);
    let bc = path_components(b);
    if ac.len() != bc.len() {
        return false;
    }
    let r = comps_prefix(&ac, &bc);
    proof {
        if r {
            assert(comps_view(ac@) =~= comps_view(bc@));
        }
    }
    r
}

// ── Ordering ────────────────────────────────────────────────────────────────

/// `a` is before `b` in code-point order, which is also the order of their
/// UTF-8 bytes: they agree up to `k`, where `a` ends first or has the
/// smaller character.
pub open spec fn chars_lt_at(a: Seq<char>, b: Seq<char>, k: int) -> bool {
    &&& 0 <= k <= a.len()
    &&& k <= b.len()
    &&& forall|j: int| 0 <= j < k ==> a[j] == b[j]
    &&& (k == a.len() && k < b.len()) || (k < a.len() && k < b.len() && (a[k] as u32) < (
    b[k] as u32))
}

pub open spec fn chars_lt(a: Seq<char>, b: Seq<char>) -> bool {
    exists|k: int| chars_lt_at(a, b, k)
}

/// The order of component kinds: root, `.`, `..`, then names.
pub open spec fn comp_rank(c: PathComp) -> int {
    match c {
        PathComp::RootDir => 0,
        PathComp::CurDir => 1,
        PathComp::ParentDir => 2,
        PathComp::Normal(_) => 3,
    }
}

/// The order of components: by kind, and names by their characters.
pub open spec fn comp_lt(x: PathComp, y: PathComp) -> bool {
    ||| comp_rank(x) < comp_rank(y)
    ||| (x matches PathComp::Normal(a) && y matches PathComp::Normal(b) && chars_lt(a, b))
}

pub open spec fn comps_lt_at(a: Seq<PathComp>, b: Seq<PathComp>, k: int) -> bool {
    &&& 0 <= k <= a.len()
    &&& k <= b.len()
    &&& forall|j: int| 0 <= j < k ==> a[j] == b[j]
    &&& (k == a.len() && k < b.len()) || (k < a.len() && k < b.len() && comp_lt(a[k], b[k]))
}

/// Lexicographic order of component sequences.
pub open spec fn comps_lt(a: Seq<PathComp>, b: Seq<PathComp>) -> bool {
    exists|k: int| comps_lt_at(a, b, k)
}

/// The order of paths (`Path`'s `Ord`): their components, lexicographically.
pub open spec fn path_lt(a: Seq<char>, b: Seq<char>) -> bool {
    comps_lt(components(a), components(b))
}

pub proof fn lemma_chars_lt_irreflexive(a: Seq<char>)
    ensures
        !chars_lt(a, a),
{
}

pub proof fn lemma_chars_lt_transitive(a: Seq<char>, b: Seq<char>, c: Seq<char>)
    requires
        chars_lt(a, b),
        chars_lt(b, c),
    ensures
        chars_lt(a, c),
{
    let k1 = choose|k: int| chars_lt_at(a, b, k);
    let k2 = choose|k: int| chars_lt_at(b, c, k);
    if k1 < k2 {
        assert(chars_lt_at(a, c, k1));
    } else if k2 < k1 {
        assert(a[k2] == b[k2]);
        assert(chars_lt_at(a, c, k2));
    } else {
        assert(chars_lt_at(a, c, k1));
    }
}

pub proof fn lemma_comp_lt_transitive(x: PathComp, y: PathComp, z: PathComp)
    requires
        comp_lt(x, y),
        comp_lt(y, z),
    ensures
        comp_lt(x, z),
{
    if x is Normal && y is Normal && z is Normal {
        if chars_lt(x->Normal_0, y->Normal_0) && chars_lt(y->Normal_0, z->Normal_0) {
            lemma_chars_lt_transitive(x->Normal_0, y->Normal_0, z->Normal_0);
        }
    }
}

pub proof fn lemma_comps_lt_irreflexive(a: Seq<PathComp>)
    ensures
        !comps_lt(a, a),
{
    if comps_lt(a, a) {
        let k = choose|k: int| comps_lt_at(a, a, k);
        if a[k] is Normal {
            lemma_chars_lt_irreflexive(a[k]->Normal_0);
        }
    }
}

pub proof fn lemma_comps_lt_transitive(a: Seq<PathComp>, b: Seq<PathComp>, c: Seq<PathComp>)
    requires
        comps_lt(a, b),
        comps_lt(b, c),
    ensures
        comps_lt(a, c),
{
    let k1 = choose|k: int| comps_lt_at(a, b, k);
    let k2 = choose|k: int| comps_lt_at(b, c, k);
    if k1 < k2 {
        assert(comps_lt_at(a, c, k1));
    } else if k2 < k1 {
        assert(a[k2] == b[k2]);
        assert(comps_lt_at(a, c, k2));
    } else {
        if k1 < a.len() {
            lemma_comp_lt_transitive(a[k1], b[k1], c[k1]);
        }
        assert(comps_lt_at(a, c, k1));
    }
}

/// The order of paths is a strict order: no path is before itself, and it
/// is transitive.
pub proof fn lemma_path_order_strict(a: Seq<char>, b: Seq<char>, c: Seq<char>)
    ensures
        !path_lt(a, a),
        path_lt(a, b) && path_lt(b, c) ==> path_lt(a, c),
{
    lemma_comps_lt_irreflexive(components(a));
    if path_lt(a, b) && path_lt(b, c) {
        lemma_comps_lt_transitive(components(a), components(b), components(c));
    }
}

/// Two names that agree up to a point and then differ are ordered by the
/// code points of the first characters that differ, whatever follows.
pub proof fn lemma_chars_lt_first_difference(
    p: Seq<char>,
    x: char,
    y: char,
    s: Seq<char>,
    t: Seq<char>,
)
    requires
        x != y,
    ensures
        chars_lt(p.push(x) + s, p.push(y) + t) <==> (x as u32) < (y as u32),
{
    let a = p.push(x) + s;
    let b = p.push(y) + t;
    let n = p.len() as int;
    assert(a[n] == x && b[n] == y);
    assert forall|j: int| 0 <= j < n implies a[j] == b[j] by {
        assert(a[j] == p[j] && b[j] == p[j]);
    }
    if (x as u32) < (y as u32) {
        assert(chars_lt_at(a, b, n));
    }
    if chars_lt(a, b) {
        let k = choose|k: int| chars_lt_at(a, b, k);
        if k < n {
            assert(a[k] == b[k]);
        } else if k > n {
            assert(a[n] == b[n]);
        }
    }
}

/// A name comes before every longer name that starts with it, and never
/// after one of its prefixes.
pub proof fn lemma_chars_lt_prefix(a: Seq<char>, b: Seq<char>)
    ensures
        chars_lt(a, a + b) <==> b.len() > 0,
        !chars_lt(a + b, a),
{
    let ab = a + b;
    assert forall|j: int| 0 <= j < a.len() implies ab[j] == a[j] by {}
    if b.len() > 0 {
        assert(chars_lt_at(a, ab, a.len() as int));
    }
    if chars_lt(a, ab) {
        let k = choose|k: int| chars_lt_at(a, ab, k);
        if k < a.len() {
            assert(ab[k] == a[k]);
        }
    }
    if chars_lt(ab, a) {
        let k = choose|k: int| chars_lt_at(ab, a, k);
        assert(ab[k] == a[k]);
    }
}

proof fn lemma_split_single(s: Seq<char>)
    requires
        no_slash(s),
    ensures
        split_pieces(s) == seq![s],
    decreases s.len(),
{
    if s.len() == 0 {
        assert(s =~= Seq::<char>::empty());
        assert(split_pieces(s) =~= seq![s]);
    } else {
        let dl = s.drop_last();
        assert(no_slash(dl)) by {
            assert forall|k: int| 0 <= k < dl.len() implies dl[k] != '/' by {
                assert(dl[k] == s[k]);
            }
        }
        lemma_split_single(dl);
        assert(s.last() != '/') by {
            assert(s[s.len() - 1] != '/');
        }
        let init = split_pieces(dl);
        assert(init.last() == dl);
        assert(dl.push(s.last()) =~= s);
        assert(split_pieces(s) == init.update(0, dl.push(s.last())));
        assert(split_pieces(s) =~= seq![s]);
    }
}

proof fn lemma_components_of_child(base: Seq<char>, name: Seq<char>)
    requires
        base.len() > 0,
        valid_name(name),
    ensures
        components(join_spec(base, name)) == components(base).push(PathComp::Normal(name)),
{
    assert(no_slash(name));
    lemma_split_single(name);
    assert(!has_root(name)) by {
        assert(name[0] != '/');
    }
    lemma_components_join(base, name);
    let ps: Seq<Seq<char>> = seq![name];
    assert(ps.drop_last() =~= Seq::<Seq<char>>::empty());
    assert(pieces_comps(ps.drop_last()) == Seq::<PathComp>::empty());
    assert(name != dot() && name != dot_dot() && name.len() > 0);
    assert(piece_comp(name) == seq![PathComp::Normal(name)]);
    assert(pieces_comps(ps) == pieces_comps(ps.drop_last()) + piece_comp(ps.last()));
    assert(pieces_comps(ps) =~= seq![PathComp::Normal(name)]);
    assert(components(base) + seq![PathComp::Normal(name)] =~= components(base).push(
        PathComp::Normal(name),
    ));
}

/// Two entries of one directory are in path order exactly when their names
/// are in code-point order: the listing of a directory orders its files by
/// name.
pub proof fn lemma_sibling_order(base: Seq<char>, a: Seq<char>, b: Seq<char>)
    requires
        base.len() > 0,
        valid_name(a),
        valid_name(b),
    ensures
        path_lt(join_spec(base, a), join_spec(base, b)) <==> chars_lt(a, b),
{
    lemma_components_of_child(base, a);
    lemma_components_of_child(base, b);
    let c = components(base);
    let ca = c.push(PathComp::Normal(a));
    let cb = c.push(PathComp::Normal(b));
    let n = c.len() as int;
    if chars_lt(a, b) {
        assert(comps_lt_at(ca, cb, n));
    }
    if comps_lt(ca, cb) {
        let k = choose|k: int| comps_lt_at(ca, cb, k);
        if k < n {
            assert(ca[k] == cb[k]);
            if ca[k] is Normal {
                lemma_chars_lt_irreflexive(ca[k]->Normal_0);
            }
        }
    }
}

/// Whether `a` comes before `b` in code-point order.
pub fn chars_less(a: &str, b: &str) -> (less: bool)
    ensures
        less == chars_lt(a@, b@),
{
    let na = a.unicode_len();
    let nb = b.unicode_len();
    let mut i: usize = 0;
    while i < na && i < nb
        invariant
            na == a@.len(),
            nb == b@.len(),
            0 <= i <= na,
            i <= nb,
            forall|j: int| 0 <= j < i ==> a@[j] == b@[j],
        decreases na - i,
    {
        let ca = a.get_char(i);
        let cb = b.get_char(i);
        if ca != cb {
            let less = (ca as u32) < (cb as u32);
            proof {
                if less {
                    assert(chars_lt_at(a@, b@, i as int));
                } else {
                    assert forall|k: int| !chars_lt_at(a@, b@, k) by {
                        if chars_lt_at(a@, b@, k) && k > i {
                            assert(a@[i as int] == b@[i as int]);
                        }
                    }
                }
            }
            return less;
        }
        i = i + 1;
    }
    let less = na < nb;
    proof {
        if less {
            assert(chars_lt_at(a@, b@, i as int));
        } else {
            assert forall|k: int| !chars_lt_at(a@, b@, k) by {
                if chars_lt_at(a@, b@, k) && k < i {
                    assert(a@[k] == b@[k]);
                }
            }
        }
    }
    less
}

fn comp_rank_exec(c: &Component) -> (r: u8)
    ensures
        r as int == comp_rank(c@),
{
    match c {
        Component::RootDir => 0,
        Component::CurDir => 1,
        Component::ParentDir => 2,
        Component::Normal(_) => 3,
    }
}

fn comp_less(x: &Component, y: &Component) -> (less: bool)
    ensures
        less == comp_lt(x@, y@),
{
    match (x, y) {
        (Component::Normal(a), Component::Normal(b)) => chars_less(a.as_str(), b.as_str()),
        _ => comp_rank_exec(x) < comp_rank_exec(y),
    }
}

/// Whether the component list `a` comes before `b`, lexicographically.
pub fn comps_less(a: &Vec<Component>, b: &Vec<Component>) -> (less: bool)
    ensures
        less == comps_lt(comps_view(a@), comps_view(b@)),
{
    let ghost av = comps_view(a@);
    let ghost bv = comps_view(b@);
    let mut i: usize = 0;
    while i < a.len() && i < b.len()
        invariant
            av == comps_view(a@),
            bv == comps_view(b@),
            0 <= i <= a.len(),
            i <= b.len(),
            forall|j: int| 0 <= j < i ==> av[j] == bv[j],
        decreases a.len() - i,
    {
        if !a[i].same_as(&b[i]) {
            let less = comp_less(&a[i], &b[i]);
            proof {
                if less {
                    assert(comps_lt_at(av, bv, i as int));
                } else {
                    assert forall|k: int| !comps_lt_at(av, bv, k) by {
                        if comps_lt_at(av, bv, k) && k > i {
                            assert(av[i as int] == bv[i as int]);
                        }
                    }
                }
            }
            return less;
        }
        i = i + 1;
    }
    let less = a.len() < b.len();
    proof {
        if less {
            assert(comps_lt_at(av, bv, i as int));
        } else {
            assert forall|k: int| !comps_lt_at(av, bv, k) by {
                if comps_lt_at(av, bv, k) && k < i {
                    assert(av[k] == bv[k]);
                }
            }
        }
    }
    less
}

/// Whether the path `a` comes before `b` (`Path`'s order).
pub fn path_less(a: &str, b: &str) -> (less: bool)
    ensures
        less == path_lt(a@, b@),
{
    let ac = path_components(a);
    let bc = path_components(b);
    comps_less(&ac, &bc)
}

} // verus!
