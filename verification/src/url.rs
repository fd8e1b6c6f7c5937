//! URL handling: the calls into `urlparse_rs` and the path normalization built on them.

use vstd::prelude::*;
use vstd::utf8::encode_utf8;
use urlparse_rs::UrlError;

use crate::text::{char_pos, chars_of, find_char, push_all, push_char, starts_with, string_of};

verus! {

/// The error that `urlparse_rs::urlsplit` reports for a malformed authority.
#[verifier::external_type_specification]
#[verifier::external_body]
pub struct ExUrlError(UrlError);

/// A URL whose authority is malformed (mismatched brackets, data outside them, a
/// bracketed IPv4 or non-IP host, or a non-ASCII host that hides a delimiter); the
/// message says which.
#[derive(Debug, Clone, PartialEq, Eq)]
pub struct InvalidUrl {
    pub message: String,
}

/// The message that a `urlparse_rs::UrlError` carries (its one field).
pub uninterp spec fn url_error_text(e: UrlError) -> Seq<char>;

/// Reads the message that a `urlparse_rs::UrlError` carries. Claims that the result is
/// that message, named by `url_error_text`; what the message says is not stated.
#[verifier::external_body]
fn url_error_message(e: &UrlError) -> (res: String)
    ensures
        res@ == url_error_text(*e),
{
    e.0.clone()
}

/// The library's error for a URL that `urlsplit` refused: it carries the refusal's
/// message.
pub(crate) fn invalid_url(e: UrlError) -> (res: InvalidUrl)
    ensures
        res.message@ == url_error_text(e),
{
    InvalidUrl { message: url_error_message(&e) }
}

// ---------------------------------------------------------------------------
// Percent-encoding
// ---------------------------------------------------------------------------

/// Bytes that are never quoted: `A-Z a-z 0-9 _ . - ~`.
pub open spec fn always_safe(b: u8) -> bool {
    ||| 65 <= b <= 90
    ||| 97 <= b <= 122
    ||| 48 <= b <= 57
    ||| b == 95
    ||| b == 46
    ||| b == 45
    ||| b == 126
}

/// Upper-case hexadecimal digits.
pub open spec fn hex_upper() -> Seq<char> {
    seq!['0', '1', '2', '3', '4', '5', '6', '7', '8', '9', 'A', 'B', 'C', 'D', 'E', 'F']
}

/// How one byte is quoted: kept as its ASCII character when it is always safe or its
/// character is in `safe`, else written `%XX` with upper-case hex digits.
pub open spec fn quote_byte(b: u8, safe: Seq<char>) -> Seq<char> {
    if b < 128 && (always_safe(b) || safe.contains(b as char)) {
        seq![b as char]
    } else {
        seq!['%', hex_upper()[(b / 16) as int], hex_upper()[(b % 16) as int]]
    }
}

/// Percent-encoding of a byte string, byte by byte.
pub open spec fn percent_encode(bytes: Seq<u8>, safe: Seq<char>) -> Seq<char>
    decreases bytes.len(),
{
    if bytes.len() == 0 {
        Seq::empty()
    } else {
        quote_byte(bytes[0], safe) + percent_encode(bytes.drop_first(), safe)
    }
}

/// The value of a hexadecimal digit (either case).
pub open spec fn hex_value(b: u8) -> Option<u8> {
    if 48 <= b <= 57 {
        Some((b - 48) as u8)
    } else if 97 <= b <= 102 {
        Some((b - 87) as u8)
    } else if 65 <= b <= 70 {
        Some((b - 55) as u8)
    } else {
        None
    }
}

/// Percent-decoding of a byte string: each `%` followed by two hexadecimal digits
/// becomes the byte they spell; every other byte, and an invalid escape, is kept.
pub open spec fn percent_decode(bytes: Seq<u8>) -> Seq<u8>
    decreases bytes.len(),
{
    if bytes.len() == 0 {
        Seq::empty()
    } else if bytes[0] == 37 && bytes.len() >= 3 && hex_value(bytes[1]) is Some && hex_value(
        bytes[2],
    ) is Some {
        seq![(hex_value(bytes[1])->0 * 16 + hex_value(bytes[2])->0) as u8] + percent_decode(
            bytes.skip(3),
        )
    } else {
        seq![bytes[0]] + percent_decode(bytes.drop_first())
    }
}

/// Calls `urlparse_rs::quote_from_bytes`. Claims that each byte is kept as its ASCII
/// character when it is one of `A-Z a-z 0-9 _ . - ~` or an ASCII character of `safe`,
/// and is written `%XX` (upper-case hex) otherwise.
#[verifier::external_body]
fn quote_from_bytes(bytes: &[u8], safe: &str) -> (res: String)
    ensures
        res@ == percent_encode(bytes@, safe@),
{
    urlparse_rs::quote_from_bytes(bytes, safe)
}

/// Calls `urlparse_rs::unquote_to_bytes`. Claims that the result is the UTF-8 encoding
/// of `s` with each valid `%XX` escape replaced by the byte it spells; invalid escapes
/// are kept verbatim.
#[verifier::external_body]
fn unquote_to_bytes(s: &str) -> (res: Vec<u8>)
    ensures
        res@ == percent_decode(encode_utf8(s@)),
{
    urlparse_rs::unquote_to_bytes(s)
}

/// Canonical percent-encoding of a path: decode every escape to bytes, then quote
/// everything but `A-Z a-z 0-9 _ . - ~ /`.
pub open spec fn canonical(path: Seq<char>) -> Seq<char> {
    percent_encode(percent_decode(encode_utf8(path)), seq!['/'])
}

/// `quote(unquote(path))` on the raw bytes.
pub fn normalize(path: &str) -> (res: String)
    ensures
        res@ == canonical(path@),
{
    let bytes = unquote_to_bytes(path);
    let safe = "/";
    proof {
        reveal_strlit("/");
        assert(safe@ =~= seq!['/']);
    }
    quote_from_bytes(bytes.as_slice(), safe)
}

/// `=` and `&` separate the parts of a query.
pub open spec fn is_query_sep(c: char) -> bool {
    c == '=' || c == '&'
}

/// The length of the maximal run of non-separators that starts `q`.
pub open spec fn run_len(q: Seq<char>) -> nat
    decreases q.len(),
{
    if q.len() == 0 || is_query_sep(q[0]) {
        0
    } else {
        1 + run_len(q.drop_first())
    }
}

/// A query with each maximal run of characters other than `=` and `&` normalized and
/// the separators kept.
pub open spec fn canonical_query(q: Seq<char>) -> Seq<char>
    decreases q.len(),
{
    if q.len() == 0 {
        Seq::empty()
    } else if is_query_sep(q[0]) {
        seq![q[0]] + canonical_query(q.drop_first())
    } else {
        let n = run_len(q);
        proof {
            lemma_run_len_bound(q);
        }
        canonical(q.take(n as int)) + canonical_query(q.skip(n as int))
    }
}

/// A path normalized, and within a `?query` each run of non-`=&` characters
/// normalized.
pub open spec fn canonical_path(p: Seq<char>) -> Seq<char> {
    let i = char_pos(p, '?');
    if i == p.len() {
        canonical(p)
    } else {
        canonical(p.take(i as int)) + seq!['?'] + canonical_query(p.skip(i + 1int))
    }
}

/// A run is never longer than the query, and is non-empty when the query starts
/// with a non-separator.
pub proof fn lemma_run_len_bound(q: Seq<char>)
    ensures
        run_len(q) <= q.len(),
        q.len() > 0 && !is_query_sep(q[0]) ==> run_len(q) > 0,
    decreases q.len(),
{
    if q.len() > 0 && !is_query_sep(q[0]) {
        lemma_run_len_bound(q.drop_first());
    }
}

/// `run_len(q)` is the index of the first separator of `q`, or `q.len()`.
pub proof fn lemma_run_len(q: Seq<char>, k: int)
    requires
        0 <= k <= q.len(),
        forall|j: int| 0 <= j < k ==> !is_query_sep(q[j]),
        k < q.len() ==> is_query_sep(q[k]),
    ensures
        run_len(q) == k,
    decreases q.len(),
{
    if k > 0 {
        assert(!is_query_sep(q[0]));
        assert forall|j: int| 0 <= j < k - 1 implies !is_query_sep(q.drop_first()[j]) by {
            assert(!is_query_sep(q[j + 1]));
        }
        lemma_run_len(q.drop_first(), k - 1);
    }
}

/// Appends the normalization of `v[lo..hi]` to `out`.
fn push_normalized(out: &mut String, v: &Vec<char>, lo: usize, hi: usize)
    requires
        lo <= hi <= v.len(),
    ensures
        final(out)@ == old(out)@ + canonical(v@.subrange(lo as int, hi as int)),
{
    let run = string_of(v, lo, hi);
    let n = normalize(run.as_str());
    let nv = chars_of(n.as_str());
    push_all(out, &nv);
}

/// Normalizes `path`; within a `?query`, normalizes each maximal run of non-`=&`
/// characters and keeps the separators.
pub fn normalize_path(path: &str) -> (res: String)
    ensures
        res@ == canonical_path(path@),
{
    let v = chars_of(path);
    let qpos = find_char(&v, '?');
    if qpos == v.len() {
        assert(v@.subrange(0, v.len() as int) =~= v@);
        let mut out = String::new();
        push_normalized(&mut out, &v, 0, v.len());
        assert(out@ =~= canonical_path(path@));
        return out;
    }
    let mut out = String::new();
    push_normalized(&mut out, &v, 0, qpos);
    push_char(&mut out, '?');
    let ghost q = v@.skip(qpos + 1);
    let ghost head = out@;
    assert(head == canonical(v@.take(qpos as int)) + seq!['?']);
    // `start` is where the current run began; `i` scans the query.
    let mut start: usize = qpos + 1;
    let mut i: usize = qpos + 1;
    assert(q.skip(0) =~= q);
    while i < v.len()
        invariant
            qpos < start <= i <= v.len(),
            q == v@.skip(qpos + 1),
            forall|j: int| start <= j < i ==> !is_query_sep(v@[j]),
            out@ + canonical_query(v@.skip(start as int)) == head + canonical_query(q),
        decreases v.len() - i,
    {
        let c = v[i];
        if c == '=' || c == '&' {
            let ghost rest = v@.skip(start as int);
            if start < i {
                proof {
                    lemma_run_len(rest, i - start);
                    assert(rest.take(i - start) =~= v@.subrange(start as int, i as int));
                    assert(rest.skip(i - start) =~= v@.skip(i as int));
                    assert(rest[0] == v@[start as int]);
                    assert(canonical_query(rest) == canonical(v@.subrange(start as int, i as int))
                        + canonical_query(v@.skip(i as int)));
                }
                push_normalized(&mut out, &v, start, i);
            }
            proof {
                assert(v@.skip(i as int).drop_first() =~= v@.skip(i + 1));
                assert(v@.skip(i as int)[0] == c);
                assert(canonical_query(v@.skip(i as int)) == seq![c] + canonical_query(
                    v@.skip(i + 1),
                ));
            }
            push_char(&mut out, c);
            assert(out@ + canonical_query(v@.skip(i + 1)) =~= head + canonical_query(q));
            start = i + 1;
        }
        i += 1;
    }
    if start < v.len() {
        let ghost rest = v@.skip(start as int);
        proof {
            lemma_run_len(rest, v.len() - start);
            assert(rest.take(v.len() - start) =~= v@.subrange(start as int, v.len() as int));
            assert(rest.skip(v.len() - start) =~= Seq::<char>::empty());
            assert(rest[0] == v@[start as int]);
            assert(canonical_query(rest) == canonical(
                v@.subrange(start as int, v.len() as int),
            ) + canonical_query(Seq::<char>::empty()));
        }
        push_normalized(&mut out, &v, start, v.len());
    }
    assert(v@.skip(v.len() as int) =~= Seq::<char>::empty());
    assert(out@ =~= head + canonical_query(q));
    out
}

// ---------------------------------------------------------------------------
// Splitting and joining
// ---------------------------------------------------------------------------

/// What `urlparse_rs::urlsplit(url, scheme, allow_fragments)` returns: the scheme,
/// netloc, path, query and fragment, or, for a malformed authority, the message of the
/// error.
pub uninterp spec fn split_url(url: Seq<char>, scheme: Seq<char>, allow_fragments: bool) -> Result<
    (Seq<char>, Seq<char>, Seq<char>, Seq<char>, Seq<char>),
    Seq<char>,
>;

/// What `urlparse_rs::urlunsplit(scheme, netloc, path, query, fragment)` returns.
pub uninterp spec fn unsplit_url(
    scheme: Seq<char>,
    netloc: Seq<char>,
    path: Seq<char>,
    query: Seq<char>,
    fragment: Seq<char>,
) -> Seq<char>;

/// The five components of a URL.
pub(crate) struct UrlParts {
    pub scheme: String,
    pub netloc: String,
    pub path: String,
    pub query: String,
    pub fragment: String,
}

impl UrlParts {
    /// The components as character sequences.
    pub(crate) open spec fn model(&self) -> (Seq<char>, Seq<char>, Seq<char>, Seq<char>, Seq<char>) {
        (self.scheme@, self.netloc@, self.path@, self.query@, self.fragment@)
    }
}

/// Calls `urlparse_rs::urlsplit`. Claims that it returns the components named by
/// `split_url` for these arguments, and fails exactly where `split_url` is `Err`, with
/// the error message that `split_url` names. What the message says is not stated.
#[verifier::external_body]
pub(crate) fn urlsplit(url: &str, scheme: &str, allow_fragments: bool) -> (res: Result<UrlParts, UrlError>)
    ensures
        match res {
            Ok(p) => split_url(url@, scheme@, allow_fragments) == Ok::<
                (Seq<char>, Seq<char>, Seq<char>, Seq<char>, Seq<char>),
                Seq<char>,
            >(p.model()),
            Err(e) => split_url(url@, scheme@, allow_fragments) == Err::<
                (Seq<char>, Seq<char>, Seq<char>, Seq<char>, Seq<char>),
                Seq<char>,
            >(url_error_text(e)),
        },
{
    match urlparse_rs::urlsplit(url, scheme, allow_fragments) {
        Ok(s) => Ok(
            UrlParts {
                scheme: s.scheme,
                netloc: s.netloc,
                path: s.path,
                query: s.query,
                fragment: s.fragment,
            },
        ),
        Err(e) => Err(e),
    }
}

/// A relative reference rebuilt from a path, query and fragment, with no scheme and
/// no netloc: a path that starts with `//` gets another `//` in front, then `?query`
/// and `#fragment` follow when they are non-empty.
pub open spec fn unsplit_relative(path: Seq<char>, query: Seq<char>, fragment: Seq<char>) -> Seq<
    char,
> {
    let p = if starts_with(path, seq!['/', '/']) {
        seq!['/', '/'] + path
    } else {
        path
    };
    let pq = if query.len() > 0 {
        p + seq!['?'] + query
    } else {
        p
    };
    if fragment.len() > 0 {
        pq + seq!['#'] + fragment
    } else {
        pq
    }
}

/// Calls `urlparse_rs::urlunsplit`. Claims that the result is the one named by
/// `unsplit_url`, and that with an empty scheme and an empty netloc it is the path
/// (prefixed by `//` when it starts with `//`), then `?query` and `#fragment` when
/// those are non-empty. With a scheme or a netloc the result is not stated.
#[verifier::external_body]
fn urlunsplit(scheme: &str, netloc: &str, path: &str, query: &str, fragment: &str) -> (res: String)
    ensures
        res@ == unsplit_url(scheme@, netloc@, path@, query@, fragment@),
        scheme@.len() == 0 && netloc@.len() == 0 ==> res@ == unsplit_relative(
            path@,
            query@,
            fragment@,
        ),
{
    urlparse_rs::urlunsplit(scheme, netloc, path, query, fragment)
}

/// The path that a request for a URL with these components is judged by: the path,
/// query and fragment joined again (with no scheme or netloc), normalized, and `/` when
/// that is empty.
pub open spec fn request_path(path: Seq<char>, query: Seq<char>, fragment: Seq<char>) -> Seq<
    char,
> {
    let u = canonical_path(unsplit_relative(path, query, fragment));
    if u.len() == 0 {
        seq!['/']
    } else {
        u
    }
}

/// The path that a request for a URL with these components is judged by.
pub fn request_target(path: &str, query: &str, fragment: &str) -> (res: String)
    ensures
        res@ == request_path(path@, query@, fragment@),
{
    let empty = "";
    proof {
        reveal_strlit("");
        assert(empty@ =~= Seq::<char>::empty());
    }
    let joined = urlunsplit(empty, empty, path, query, fragment);
    let normalized = normalize_path(joined.as_str());
    let nv = chars_of(normalized.as_str());
    if nv.len() == 0 {
        let mut slash = String::new();
        push_char(&mut slash, '/');
        assert(slash@ =~= seq!['/']);
        slash
    } else {
        normalized
    }
}

} // verus!
