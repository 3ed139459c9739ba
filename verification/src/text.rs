//! Small string operations used by the path and argument logic.
use vstd::prelude::*;

verus! {

/// Character-wise equality of two strings.
pub fn str_is(a: &str, b: &str) -> (eq: bool)
    ensures
        eq == (a@ == b@),
{
    let n = a.unicode_len();
    if n != b.unicode_len() {
        return false;
    }
    let mut i: usize = 0;
    while i < n
        invariant
            n == a@.len(),
            n == b@.len(),
            0 <= i <= n,
            forall|j: int| 0 <= j < i ==> a@[j] == b@[j],
        decreases n - i,
    {
        if a.get_char(i) != b.get_char(i) {
            return false;
        }
        i = i + 1;
    }
    proof {
        assert(a@ =~= b@);
    }
    true
}

/// The Unicode `White_Space` property, which `str::trim` strips.
pub open spec fn is_white_space(c: char) -> bool {
    let u = c as u32;
    ||| 0x9 <= u <= 0xd
    ||| u == 0x20
    ||| u == 0x85
    ||| u == 0xa0
    ||| u == 0x1680
    ||| 0x2000 <= u <= 0x200a
    ||| u == 0x2028
    ||| u == 0x2029
    ||| u == 0x202f
    ||| u == 0x205f
    ||| u == 0x3000
}

pub open spec fn trim_start_spec(s: Seq<char>) -> Seq<char>
    decreases s.len(),
{
    if s.len() > 0 && is_white_space(s[0]) {
        trim_start_spec(s.drop_first())
    } else {
        s
    }
}

pub open spec fn trim_end_spec(s: Seq<char>) -> Seq<char>
    decreases s.len(),
{
    if s.len() > 0 && is_white_space(s.last()) {
        trim_end_spec(s.drop_last())
    } else {
        s
    }
}

/// `s` without leading and trailing white space.
pub open spec fn trim_spec(s: Seq<char>) -> Seq<char> {
    trim_end_spec(trim_start_spec(s))
}

/// `str::trim`: the documentation says it removes leading and trailing
/// characters with the Unicode `White_Space` property; this contract says
/// exactly that.
#[verifier::external_body]
pub fn trim(s: &str) -> (t: &str)
    ensures
        t@ == trim_spec(s@),
{
    s.trim()
}

/// `c` occurs at `i` in `s` and nowhere before.
pub open spec fn first_at(s: Seq<char>, c: char, i: int) -> bool {
    &&& 0 <= i < s.len()
    &&& s[i] == c
    &&& forall|k: int| 0 <= k < i ==> s[k] != c
}

/// The parts of `s` before and after the first `c`, if `c` occurs.
pub open spec fn split_once_spec(s: Seq<char>, c: char) -> Option<(Seq<char>, Seq<char>)> {
    if exists|i: int| first_at(s, c, i) {
        let i = choose|i: int| first_at(s, c, i);
        Some((s.take(i), s.skip(i + 1)))
    } else {
        None
    }
}

/// `str::split_once` with a character delimiter: the documentation says it
/// splits at the first occurrence and gives the parts before and after,
/// or `None` when the delimiter does not occur.
#[verifier::external_body]
fn split_once_raw(s: &str, c: char) -> (parts: Option<(&str, &str)>)
    ensures
        match parts {
            Some((a, b)) => first_at(s@, c, a@.len() as int) && a@ == s@.take(a@.len() as int)
                && b@ == s@.skip(a@.len() as int + 1),
            None => forall|k: int| 0 <= k < s@.len() ==> s@[k] != c,
        },
{
    s.split_once(c)
}

/// The parts of `s` before and after the first `c`.
pub fn split_once(s: &str, c: char) -> (parts: Option<(&str, &str)>)
    ensures
        match parts {
            Some((a, b)) => split_once_spec(s@, c) == Some((a@, b@)),
            None => split_once_spec(s@, c) is None,
        },
{
    let r = split_once_raw(s, c);
    proof {
        match r {
            Some((a, b)) => {
                let i = a@.len() as int;
                assert(first_at(s@, c, i));
                let j = choose|j: int| first_at(s@, c, j);
                assert(j == i) by {
                    if j < i {
                        assert(s@[j] != c);
                    } else if i < j {
                        assert(s@[i] != c);
                    }
                }
            },
            None => {
                assert(!exists|i: int| first_at(s@, c, i));
            },
        }
    }
    r
}

} // verus!
