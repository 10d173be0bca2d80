//! Request dispatch: which kind of response a request path asks for, and the
//! steps that serve it.

use rand::Rng;
use vstd::prelude::*;
use vstd::string::StringExecFns;

use crate::decode::{chars_of, push_char, url_decode, url_decoded};
use crate::listing::{assemble, classify_entries, Listing, RawEntry};

verus! {

/// The request path of the embedded icon.
pub open spec fn favicon_request() -> Seq<char> {
    seq!['/', 'f', 'a', 'v', 'i', 'c', 'o', 'n', '.', 'i', 'c', 'o']
}

/// The name of the embedded icon in the asset store.
pub open spec fn favicon_name() -> Seq<char> {
    favicon_request().drop_first()
}

/// The length of the random route prefix.
pub const PREFIX_LEN: usize = 30;

/// What follows `/<prefix>` in `path`, without its leading `/`, when `path`
/// starts with the segment `prefix`.
pub open spec fn static_rest(path: Seq<char>, prefix: Seq<char>) -> Option<Seq<char>> {
    let head = seq!['/'] + prefix;
    if path.len() >= head.len() && path.subrange(0, head.len() as int) == head {
        let rest = path.subrange(head.len() as int, path.len() as int);
        if rest.len() == 0 {
            Some(rest)
        } else if rest[0] == '/' {
            Some(rest.drop_first())
        } else {
            None
        }
    } else {
        None
    }
}

/// The kind of response a request path asks for.
pub enum Route {
    /// An embedded asset, by name.
    Asset(String),
    /// A file under the served root, by its still-encoded path.
    Static(String),
    /// The listing of a directory, by its still-encoded request path.
    Browse(String),
}

/// Picks the route of a request: the icon first, then a path under the
/// random prefix, and a directory listing for everything else.
pub fn route(path: &str, prefix: &str) -> (r: Route)
    ensures
        path@ == favicon_request() ==> (r matches Route::Asset(a) && a@ == favicon_name()),
        path@ != favicon_request() && static_rest(path@, prefix@) is Some
            ==> (r matches Route::Static(s) && s@ == static_rest(path@, prefix@)->0),
        path@ != favicon_request() && static_rest(path@, prefix@) is None
            ==> (r matches Route::Browse(b) && b@ == path@),
{
    let p = chars_of(path);
    let x = chars_of(prefix);
    let mut favicon = String::new();
    let icon = ['/', 'f', 'a', 'v', 'i', 'c', 'o', 'n', '.', 'i', 'c', 'o'];
    let mut i: usize = 0;
    while i < 12
        invariant
            i <= 12,
            icon@ == favicon_request(),
            favicon@ == favicon_request().subrange(0, i as int),
        decreases 12 - i,
    {
        push_char(&mut favicon, icon[i]);
        i = i + 1;
        assert(favicon@ =~= favicon_request().subrange(0, i as int));
    }
    assert(favicon@ =~= favicon_request());
    if String::from_str(path) == favicon {
        let mut name = String::new();
        let mut j: usize = 1;
        while j < 12
            invariant
                1 <= j <= 12,
                icon@ == favicon_request(),
                name@ == favicon_request().subrange(1, j as int),
            decreases 12 - j,
        {
            push_char(&mut name, icon[j]);
            j = j + 1;
            assert(name@ =~= favicon_request().subrange(1, j as int));
        }
        assert(name@ =~= favicon_name());
        return Route::Asset(name);
    }
    let ghost head = seq!['/'] + prefix@;
    if p.len() > x.len() && p[0] == '/' {
        let mut k: usize = 0;
        while k < x.len() && p[k + 1] == x[k]
            invariant
                p@ == path@,
                x@ == prefix@,
                p.len() > x.len(),
                k <= x.len(),
                forall|m: int| 0 <= m < k ==> p@[m + 1] == x@[m],
            decreases x.len() - k,
        {
            k = k + 1;
        }
        if k == x.len() {
            assert(p@.subrange(0, head.len() as int) =~= head);
            let n = x.len() + 1;
            if n == p.len() || p[n] == '/' {
                let start: usize = if n == p.len() { n } else { n + 1 };
                let mut rest = String::new();
                let mut m: usize = start;
                while m < p.len()
                    invariant
                        p@ == path@,
                        start <= m <= p.len(),
                        rest@ == p@.subrange(start as int, m as int),
                    decreases p.len() - m,
                {
                    push_char(&mut rest, p[m]);
                    m = m + 1;
                    assert(rest@ =~= p@.subrange(start as int, m as int));
                }
                proof {
                    let tail = path@.subrange(head.len() as int, path@.len() as int);
                    if n < p.len() {
                        assert(tail.drop_first() =~= rest@);
                    } else {
                        assert(tail =~= rest@);
                    }
                }
                return Route::Static(rest);
            }
        } else {
            assert(p@.subrange(0, head.len() as int)[k + 1] != head[k + 1]);
        }
    }
    proof {
        if path@.len() >= head.len() && path@.subrange(0, head.len() as int) == head {
            assert(path@[0] == head[0]);
            assert forall|m: int| 0 <= m < x.len() implies path@[m + 1] == x@[m] by {
                assert(path@.subrange(0, head.len() as int)[m + 1] == head[m + 1]);
            }
        }
    }
    Route::Browse(String::from_str(path))
}

} // verus!

verus! {

/// True for the ASCII letters and digits.
pub open spec fn is_alphanumeric(c: char) -> bool {
    ('0' <= c && c <= '9') || ('a' <= c && c <= 'z') || ('A' <= c && c <= 'Z')
}

/// Relies on `rand`'s `Alphanumeric` distribution, sampled from `thread_rng`:
/// each sample is one of the ASCII letters and digits.
#[verifier::external_body]
fn random_alphanumeric() -> (c: char)
    ensures
        is_alphanumeric(c),
{
    rand::thread_rng().sample(rand::distributions::Alphanumeric) as char
}

/// A fresh random route prefix of `PREFIX_LEN` letters and digits.
pub fn route_prefix() -> (r: String)
    ensures
        r@.len() == PREFIX_LEN,
        forall|i: int| 0 <= i < r@.len() ==> is_alphanumeric(#[trigger] r@[i]),
{
    let mut r = String::new();
    let mut i: usize = 0;
    while i < PREFIX_LEN
        invariant
            i <= PREFIX_LEN,
            r@.len() == i,
            forall|k: int| 0 <= k < r@.len() ==> is_alphanumeric(#[trigger] r@[k]),
        decreases PREFIX_LEN - i,
    {
        let c = random_alphanumeric();
        push_char(&mut r, c);
        i = i + 1;
    }
    r
}

/// The MIME type that `mime_guess` gives a path by its extension.
pub uninterp spec fn mime_of(path: Seq<char>) -> Seq<char>;

/// Relies on `mime_guess::from_path(..).first_or_octet_stream()`: the first
/// MIME type known for the path's extension, `application/octet-stream`
/// when there is none; it depends on the path alone.
#[verifier::external_body]
fn guess_mime(path: &str) -> (r: String)
    ensures
        r@ == mime_of(path@),
{
    mime_guess::from_path(path).first_or_octet_stream().as_ref().to_string()
}

/// The content type under which a file or an asset named `path` is sent.
pub fn content_type(path: &str) -> (r: String)
    ensures
        r@ == mime_of(path@),
{
    guess_mime(path)
}

/// The path on disk, relative to the served root, of a decoded request path.
pub open spec fn fs_path_of(p: Seq<char>) -> Seq<char> {
    if p.len() > 0 && p[0] == '/' {
        seq!['.'] + p
    } else {
        seq!['.', '/'] + p
    }
}

/// Computes `fs_path_of`.
pub fn fs_path(p: &str) -> (r: String)
    ensures
        r@ == fs_path_of(p@),
{
    let c = chars_of(p);
    let mut r = String::new();
    push_char(&mut r, '.');
    if !(c.len() > 0 && c[0] == '/') {
        push_char(&mut r, '/');
    }
    r.append(p);
    proof {
        if p@.len() > 0 && p@[0] == '/' {
            assert(r@ =~= seq!['.'] + p@);
        } else {
            assert(r@ =~= seq!['.', '/'] + p@);
        }
    }
    r
}

/// The message of the page shown when nothing is found at `path`.
pub open spec fn not_found_text(path: Seq<char>) -> Seq<char> {
    "Nothing was found at "@ + path
}

/// Builds `not_found_text`.
pub fn not_found_message(path: &str) -> (r: String)
    ensures
        r@ == not_found_text(path@),
{
    let mut r = String::from_str("Nothing was found at ");
    r.append(path);
    r
}

/// A rendered page: a directory listing, or an error naming what was asked.
pub enum Page {
    Listing(Listing),
    NotFound(String),
}

/// First step of a directory request: its decoded path, or the message of
/// the error page when the request path does not decode.
pub fn browse_start(request_path: &str) -> (r: Result<String, String>)
    ensures
        url_decoded(request_path@) is Some ==> (r matches Ok(d) && d@ == url_decoded(request_path@)->0),
        url_decoded(request_path@) is None ==> (r matches Err(m) && m@ == not_found_text(request_path@)),
{
    match url_decode(request_path) {
        Ok(d) => Ok(d),
        Err(_) => Err(not_found_message(request_path)),
    }
}

/// Last step of a directory request: the children read at `fs_path_of(dir)`,
/// or `None` when that directory could not be read.
pub fn browse_finish(dir: &str, children: Option<Vec<RawEntry>>) -> (r: Page)
    ensures
        children is None ==> (r matches Page::NotFound(m) && m@ == not_found_text(dir@)),
        children is Some ==> (r matches Page::Listing(l) && crate::listing::is_listing_of(
            l@,
            dir@,
            crate::listing::bucket(dir@, crate::listing::raw_view(children->0@), true),
            crate::listing::bucket(dir@, crate::listing::raw_view(children->0@), false),
        )),
{
    match children {
        None => Page::NotFound(not_found_message(dir)),
        Some(raw) => {
            let (dirs, files) = classify_entries(dir, &raw);
            Page::Listing(assemble(dir, dirs, files))
        },
    }
}

/// A file request under the route prefix: the file to read and its content
/// type, or the message of the error page when the path does not decode.
pub fn static_fetch(sub_path: &str) -> (r: Result<(String, String), String>)
    ensures
        url_decoded(sub_path@) is Some ==> (r matches Ok(f) && f.0@ == fs_path_of(url_decoded(sub_path@)->0)
            && f.1@ == mime_of(url_decoded(sub_path@)->0)),
        url_decoded(sub_path@) is None ==> (r matches Err(m) && m@ == not_found_text(sub_path@)),
{
    match url_decode(sub_path) {
        Ok(d) => {
            let target = fs_path(d.as_str());
            let mime = content_type(d.as_str());
            Ok((target, mime))
        },
        Err(_) => Err(not_found_message(sub_path)),
    }
}

} // verus!
