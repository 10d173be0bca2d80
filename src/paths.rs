//! Navigation paths: the parent of a requested directory and the path of a
//! child entry.

use vstd::prelude::*;
use vstd::string::StringExecFns;

use crate::decode::{chars_of, push_char};

verus! {

/// The root of the served tree.
pub open spec fn root_path() -> Seq<char> {
    seq!['/']
}

/// `p` without the slashes at its end.
pub open spec fn trim_trailing_slashes(p: Seq<char>) -> Seq<char>
    decreases p.len(),
{
    if p.len() > 0 && p.last() == '/' {
        trim_trailing_slashes(p.drop_last())
    } else {
        p
    }
}

/// The index of the last `/` in `q`, or -1 when it has none.
pub open spec fn last_slash(q: Seq<char>) -> int
    decreases q.len(),
{
    if q.len() == 0 {
        -1
    } else if q.last() == '/' {
        q.len() - 1
    } else {
        last_slash(q.drop_last())
    }
}

/// The parent of a directory path: its last non-empty segment is dropped with
/// the slashes after it and the one before it; `/` when nothing is left.
pub open spec fn parent_path(p: Seq<char>) -> Seq<char> {
    let q = trim_trailing_slashes(p);
    let k = last_slash(q);
    if k <= 0 {
        root_path()
    } else {
        q.subrange(0, k)
    }
}

/// The navigation path of the child `name` of the directory `dir`.
pub open spec fn child_path(dir: Seq<char>, name: Seq<char>) -> Seq<char> {
    if dir.len() > 0 && dir.last() == '/' {
        dir + name
    } else {
        dir + seq!['/'] + name
    }
}

proof fn lemma_last_slash_bounds(q: Seq<char>)
    ensures
        -1 <= last_slash(q) < q.len(),
    decreases q.len(),
{
    if q.len() > 0 && q.last() != '/' {
        lemma_last_slash_bounds(q.drop_last());
    }
}

/// The path of the root of the served tree.
pub fn root() -> (r: String)
    ensures
        r@ == root_path(),
{
    let mut r = String::new();
    push_char(&mut r, '/');
    assert(r@ =~= root_path());
    r
}

/// Computes `parent_path`.
pub fn parent_of(p: &str) -> (r: String)
    ensures
        r@ == parent_path(p@),
{
    let c = chars_of(p);
    let mut n: usize = c.len();
    assert(c@.subrange(0, n as int) =~= p@);
    while n > 0 && c[n - 1] == '/'
        invariant
            c@ == p@,
            n <= c.len(),
            trim_trailing_slashes(p@) == trim_trailing_slashes(c@.subrange(0, n as int)),
        decreases n,
    {
        assert(c@.subrange(0, n as int).drop_last() =~= c@.subrange(0, n - 1));
        n = n - 1;
    }
    let ghost q = c@.subrange(0, n as int);
    assert(trim_trailing_slashes(q) == q);
    let mut j: usize = n;
    assert(q.subrange(0, j as int) =~= q);
    while j > 0 && c[j - 1] != '/'
        invariant
            c@ == p@,
            q == c@.subrange(0, n as int),
            j <= n <= c.len(),
            last_slash(q) == last_slash(q.subrange(0, j as int)),
        decreases j,
    {
        assert(q.subrange(0, j as int).drop_last() =~= q.subrange(0, j - 1));
        j = j - 1;
    }
    proof {
        lemma_last_slash_bounds(q);
    }
    if j <= 1 {
        root()
    } else {
        let k: usize = j - 1;
        let mut r = String::new();
        let mut i: usize = 0;
        while i < k
            invariant
                c@ == p@,
                q == c@.subrange(0, n as int),
                k < j <= n <= c.len(),
                i <= k,
                r@ == q.subrange(0, i as int),
            decreases k - i,
        {
            push_char(&mut r, c[i]);
            i = i + 1;
            assert(r@ =~= q.subrange(0, i as int));
        }
        r
    }
}

/// Computes `child_path`.
pub fn child_path_of(dir: &str, name: &str) -> (r: String)
    ensures
        r@ == child_path(dir@, name@),
{
    let c = chars_of(dir);
    let mut r = String::from_str(dir);
    if !(c.len() > 0 && c[c.len() - 1] == '/') {
        push_char(&mut r, '/');
    }
    r.append(name);
    r
}

} // verus!
