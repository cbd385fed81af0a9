//! Authentication of requests, step by step. What only other parts can tell
//! (credentials, sessions, keys, signatures, policies) comes in between the
//! steps.

use crate::parse::{cut_at, cut_first, drop_empty, join_texts, joined, nonempty, split, split_text};
use crate::s3::objects::Method;
use crate::s3::outside::{parse_query, query_pairs};
use crate::text::{concat, concat3, text_before, text_eq, text_lt};
use crate::words::{squeeze, trim, trimmed, words};
use vstd::prelude::*;
use vstd::string::*;

verus! {

/// Why a request is not let through.
#[derive(Debug)]
pub enum AuthError {
    MissingAuth,
    InvalidAccessKey { access_key: String },
    SignatureDoesNotMatch { canonical_request: String, string_to_sign: String },
    RequestTimeTooSkewed { server_time: String, request_time: String },
    InvalidCredentialScope { expected: String, received: String },
    InsecureTransport,
    InvalidToken { reason: String },
    ExpiredToken,
    InternalError { reason: String },
}

/// What an authentication error stands for.
pub enum AuthErrorView {
    MissingAuth,
    InvalidAccessKey { access_key: Seq<char> },
    SignatureDoesNotMatch { canonical_request: Seq<char>, string_to_sign: Seq<char> },
    RequestTimeTooSkewed { server_time: Seq<char>, request_time: Seq<char> },
    InvalidCredentialScope { expected: Seq<char>, received: Seq<char> },
    InsecureTransport,
    InvalidToken { reason: Seq<char> },
    ExpiredToken,
    InternalError { reason: Seq<char> },
}

impl View for AuthError {
    type V = AuthErrorView;

    open spec fn view(&self) -> AuthErrorView {
        match self {
            AuthError::MissingAuth => AuthErrorView::MissingAuth,
            AuthError::InvalidAccessKey { access_key } => AuthErrorView::InvalidAccessKey {
                access_key: access_key@,
            },
            AuthError::SignatureDoesNotMatch { canonical_request, string_to_sign } => {
                AuthErrorView::SignatureDoesNotMatch {
                    canonical_request: canonical_request@,
                    string_to_sign: string_to_sign@,
                }
            },
            AuthError::RequestTimeTooSkewed { server_time, request_time } => {
                AuthErrorView::RequestTimeTooSkewed {
                    server_time: server_time@,
                    request_time: request_time@,
                }
            },
            AuthError::InvalidCredentialScope { expected, received } => {
                AuthErrorView::InvalidCredentialScope {
                    expected: expected@,
                    received: received@,
                }
            },
            AuthError::InsecureTransport => AuthErrorView::InsecureTransport,
            AuthError::InvalidToken { reason } => AuthErrorView::InvalidToken { reason: reason@ },
            AuthError::ExpiredToken => AuthErrorView::ExpiredToken,
            AuthError::InternalError { reason } => AuthErrorView::InternalError { reason: reason@ },
        }
    }
}

/// The status with which an error is answered.
pub open spec fn status_of(e: AuthErrorView) -> u16 {
    match e {
        AuthErrorView::InvalidCredentialScope { .. } => 400,
        AuthErrorView::InternalError { .. } => 500,
        _ => 403,
    }
}

/// The status with which an error is answered.
pub fn error_status(e: &AuthError) -> (r: u16)
    ensures
        r == status_of(e@),
{
    match e {
        AuthError::InvalidCredentialScope { .. } => 400,
        AuthError::InternalError { .. } => 500,
        _ => 403,
    }
}

/// The body with which an error is answered.
pub open spec fn error_body(code: Seq<char>, message: Seq<char>) -> Seq<char> {
    "<?xml version=\"1.0\" encoding=\"UTF-8\"?>\n<Error>\n  <Code>"@ + code
        + "</Code>\n  <Message>"@ + message
        + "</Message>\n  <Resource>/</Resource>\n</Error>"@
}

/// The status and the body with which an error is answered; `code` and
/// `message` are what the error is called in S3.
pub fn s3_error_response(e: &AuthError, code: &str, message: &str) -> (r: (u16, String))
    ensures
        r.0 == status_of(e@),
        r.1@ == error_body(code@, message@),
{
    let mut body = concat3(
        "<?xml version=\"1.0\" encoding=\"UTF-8\"?>\n<Error>\n  <Code>",
        code,
        "</Code>\n  <Message>",
    );
    body.append(message);
    body.append("</Message>\n  <Resource>/</Resource>\n</Error>");
    (error_status(e), body)
}

/// The address that a request comes from: that of the connection, else the one
/// that a trusted proxy gives, else the first one that was forwarded.
pub open spec fn remote_address(
    connection: Option<Seq<char>>,
    real_ip: Option<Seq<char>>,
    forwarded_for: Option<Seq<char>>,
) -> Seq<char> {
    match connection {
        Some(a) => a,
        None => match real_ip {
            Some(a) => trimmed(a),
            None => match forwarded_for {
                Some(a) => trimmed(split(a, ',')[0]),
                None => "unknown"@,
            },
        },
    }
}

/// The address that a request comes from.
pub fn remote_ip(
    connection: &Option<String>,
    real_ip: &Option<String>,
    forwarded_for: &Option<String>,
) -> (r: String)
    ensures
        r@ == remote_address(
            connection.deep_view(),
            real_ip.deep_view(),
            forwarded_for.deep_view(),
        ),
{
    match connection {
        Some(a) => a.clone(),
        None => match real_ip {
            Some(a) => trim(a.as_str()),
            None => match forwarded_for {
                Some(a) => {
                    let parts = split_text(a.as_str(), ',');
                    assert(parts.deep_view()[0] == parts@[0]@);
                    trim(parts[0].as_str())
                },
                None => "unknown".to_owned(),
            },
        },
    }
}

/// The parameters name `k`.
pub open spec fn has_param(params: Seq<(Seq<char>, Seq<char>)>, k: Seq<char>) -> bool {
    exists|i: int| 0 <= i < params.len() && (#[trigger] params[i]).0 == k
}

/// The value of the first parameter named `k`.
pub open spec fn param(params: Seq<(Seq<char>, Seq<char>)>, k: Seq<char>) -> Option<Seq<char>>
    decreases params.len(),
{
    if params.len() == 0 {
        None
    } else if params[0].0 == k {
        Some(params[0].1)
    } else {
        param(params.drop_first(), k)
    }
}

pub(crate) fn find_param(params: &Vec<(String, String)>, k: &str) -> (r: Option<usize>)
    ensures
        match r {
            Some(i) => i < params@.len() && params@[i as int].0@ == k@ && has_param(
                params.deep_view(),
                k@,
            ) && param(params.deep_view(), k@) == Some(params@[i as int].1@),
            None => !has_param(params.deep_view(), k@) && param(params.deep_view(), k@) is None,
        },
{
    let ghost ps = params.deep_view();
    let mut i: usize = 0;
    assert(ps.skip(0) =~= ps);
    while i < params.len()
        invariant
            i <= params@.len(),
            ps == params.deep_view(),
            forall|j: int| 0 <= j < i ==> (#[trigger] ps[j]).0 != k@,
            param(ps, k@) == param(ps.skip(i as int), k@),
        decreases params@.len() - i,
    {
        proof {
            assert(ps[i as int] == (params@[i as int].0@, params@[i as int].1@));
            assert(ps.skip(i as int)[0] == ps[i as int]);
            assert(ps.skip(i as int).drop_first() =~= ps.skip(i as int + 1));
        }
        if text_eq(params[i].0.as_str(), k) {
            return Some(i);
        }
        i += 1;
    }
    None
}

fn names_param(params: &Vec<(String, String)>, k: &str) -> (r: bool)
    ensures
        r == has_param(params.deep_view(), k@),
{
    find_param(params, k).is_some()
}

/// The components of a path.
pub open spec fn components(path: Seq<char>) -> Seq<Seq<char>> {
    nonempty(split(path, '/'))
}

/// The S3 action of a request for `n` path components.
pub open spec fn action_of(method: Method, n: int, params: Seq<(Seq<char>, Seq<char>)>) -> Seq<
    char,
> {
    let has = |k: Seq<char>| has_param(params, k);
    match method {
        Method::Get => if n == 0 {
            "s3:ListAllMyBuckets"@
        } else if n == 1 {
            if has("acl"@) {
                "s3:GetBucketAcl"@
            } else if has("tagging"@) {
                "s3:GetBucketTagging"@
            } else if has("policy"@) {
                "s3:GetBucketPolicy"@
            } else if has("location"@) {
                "s3:GetBucketLocation"@
            } else {
                "s3:ListBucket"@
            }
        } else if has("acl"@) {
            "s3:GetObjectAcl"@
        } else if has("tagging"@) {
            "s3:GetObjectTagging"@
        } else {
            "s3:GetObject"@
        },
        Method::Put => if n == 0 {
            "s3:Unknown"@
        } else if n == 1 {
            if has("acl"@) {
                "s3:PutBucketAcl"@
            } else if has("tagging"@) {
                "s3:PutBucketTagging"@
            } else if has("policy"@) {
                "s3:PutBucketPolicy"@
            } else {
                "s3:CreateBucket"@
            }
        } else if has("acl"@) {
            "s3:PutObjectAcl"@
        } else if has("tagging"@) {
            "s3:PutObjectTagging"@
        } else {
            "s3:PutObject"@
        },
        Method::Delete => if n == 0 {
            "s3:Unknown"@
        } else if n == 1 {
            if has("tagging"@) {
                "s3:DeleteBucketTagging"@
            } else if has("policy"@) {
                "s3:DeleteBucketPolicy"@
            } else {
                "s3:DeleteBucket"@
            }
        } else if has("tagging"@) {
            "s3:DeleteObjectTagging"@
        } else {
            "s3:DeleteObject"@
        },
        Method::Head => if n == 0 {
            "s3:Unknown"@
        } else if n == 1 {
            "s3:HeadBucket"@
        } else {
            "s3:HeadObject"@
        },
        Method::Post => if n >= 1 && (has("uploads"@) || has("uploadId"@)) {
            "s3:PutObject"@
        } else {
            "s3:Unknown"@
        },
        Method::Other => "s3:Unknown"@,
    }
}

/// The resource of a request: the bucket or object that its path names, or
/// everything.
pub open spec fn resource_of(method: Method, parts: Seq<Seq<char>>) -> Seq<char> {
    if parts.len() == 0 || method == Method::Other {
        "arn:dfs:s3:::*"@
    } else {
        "arn:dfs:s3:::"@ + joined(parts, "/"@)
    }
}

/// The S3 action and the resource of a request.
pub fn resolve_s3_action_and_resource_from_parts(
    method: Method,
    path: &str,
    params: &Vec<(String, String)>,
) -> (r: (String, String))
    ensures
        r.0@ == action_of(method, components(path@).len() as int, params.deep_view()),
        r.1@ == resource_of(method, components(path@)),
{
    let raw = split_text(path, '/');
    let parts = drop_empty(&raw);
    let n: usize = parts.len();
    let action: &str = match method {
        Method::Get => if n == 0 {
            "s3:ListAllMyBuckets"
        } else if n == 1 {
            if names_param(params, "acl") {
                "s3:GetBucketAcl"
            } else if names_param(params, "tagging") {
                "s3:GetBucketTagging"
            } else if names_param(params, "policy") {
                "s3:GetBucketPolicy"
            } else if names_param(params, "location") {
                "s3:GetBucketLocation"
            } else {
                "s3:ListBucket"
            }
        } else if names_param(params, "acl") {
            "s3:GetObjectAcl"
        } else if names_param(params, "tagging") {
            "s3:GetObjectTagging"
        } else {
            "s3:GetObject"
        },
        Method::Put => if n == 0 {
            "s3:Unknown"
        } else if n == 1 {
            if names_param(params, "acl") {
                "s3:PutBucketAcl"
            } else if names_param(params, "tagging") {
                "s3:PutBucketTagging"
            } else if names_param(params, "policy") {
                "s3:PutBucketPolicy"
            } else {
                "s3:CreateBucket"
            }
        } else if names_param(params, "acl") {
            "s3:PutObjectAcl"
        } else if names_param(params, "tagging") {
            "s3:PutObjectTagging"
        } else {
            "s3:PutObject"
        },
        Method::Delete => if n == 0 {
            "s3:Unknown"
        } else if n == 1 {
            if names_param(params, "tagging") {
                "s3:DeleteBucketTagging"
            } else if names_param(params, "policy") {
                "s3:DeleteBucketPolicy"
            } else {
                "s3:DeleteBucket"
            }
        } else if names_param(params, "tagging") {
            "s3:DeleteObjectTagging"
        } else {
            "s3:DeleteObject"
        },
        Method::Head => if n == 0 {
            "s3:Unknown"
        } else if n == 1 {
            "s3:HeadBucket"
        } else {
            "s3:HeadObject"
        },
        Method::Post => if n >= 1 && (names_param(params, "uploads") || names_param(
            params,
            "uploadId",
        )) {
            "s3:PutObject"
        } else {
            "s3:Unknown"
        },
        Method::Other => "s3:Unknown",
    };
    let resource = if n == 0 || method == Method::Other {
        "arn:dfs:s3:::*".to_owned()
    } else {
        let name = join_texts(&parts, "/");
        concat("arn:dfs:s3:::", name.as_str())
    };
    (action.to_owned(), resource)
}

/// The S3 action and the resource of a request with a query string.
pub fn resolve_s3_action_and_resource(method: Method, path: &str, query: &Option<String>) -> (r: (
    String,
    String,
))
    ensures
        ({
            let params = query_pairs(or_nothing(query.deep_view()));
            &&& r.0@ == action_of(method, components(path@).len() as int, params)
            &&& r.1@ == resource_of(method, components(path@))
        }),
{
    let raw: String = match query {
        Some(q) => q.clone(),
        None => String::new(),
    };
    let params = parse_query(raw.as_str());
    resolve_s3_action_and_resource_from_parts(method, path, &params)
}

/// The text, or nothing.
pub open spec fn or_nothing(o: Option<Seq<char>>) -> Seq<char> {
    match o {
        Some(t) => t,
        None => Seq::empty(),
    }
}

/// A parameter as it stands in a query string: name and value, nothing for
/// the value where no `=` follows the name.
pub open spec fn raw_pair(s: Seq<char>) -> (Seq<char>, Seq<char>) {
    match cut_first(s, '=') {
        Some(p) => p,
        None => (s, Seq::empty()),
    }
}

/// A pair comes before another: by name, then by value.
pub open spec fn pair_lt(a: (Seq<char>, Seq<char>), b: (Seq<char>, Seq<char>)) -> bool {
    text_lt(a.0, b.0) || (a.0 == b.0 && text_lt(a.1, b.1))
}

/// How many leading pairs do not come after `x`.
pub open spec fn pair_place(
    s: Seq<(Seq<char>, Seq<char>)>,
    x: (Seq<char>, Seq<char>),
) -> nat
    decreases s.len(),
{
    if s.len() == 0 || pair_lt(x, s[0]) {
        0
    } else {
        1 + pair_place(s.drop_first(), x)
    }
}

/// The parameters of a query string as they stand there, in order of name and
/// value.
pub open spec fn sorted_pairs(parts: Seq<Seq<char>>) -> Seq<(Seq<char>, Seq<char>)>
    decreases parts.len(),
{
    if parts.len() == 0 {
        Seq::empty()
    } else {
        let r = sorted_pairs(parts.drop_last());
        let x = raw_pair(parts.last());
        r.insert(pair_place(r, x) as int, x)
    }
}

/// A pair written with `=` between name and value.
pub open spec fn pair_text(p: (Seq<char>, Seq<char>)) -> Seq<char> {
    p.0 + "="@ + p.1
}

/// The canonical form of a query string: its parameters as they stand there,
/// in order, each with a `=`.
pub open spec fn canonical_query(raw: Seq<char>) -> Seq<char> {
    joined(
        sorted_pairs(nonempty(split(raw, '&'))).map_values(
            |p: (Seq<char>, Seq<char>)| pair_text(p),
        ),
        "&"@,
    )
}

fn comes_before(a: &(String, String), b: &(String, String)) -> (r: bool)
    ensures
        r == pair_lt((a.0@, a.1@), (b.0@, b.1@)),
{
    text_before(a.0.as_str(), b.0.as_str()) || (text_eq(a.0.as_str(), b.0.as_str())
        && text_before(a.1.as_str(), b.1.as_str()))
}

fn sort_pairs(parts: &Vec<String>) -> (r: Vec<(String, String)>)
    ensures
        r.deep_view() == sorted_pairs(parts.deep_view()),
{
    let ghost ps = parts.deep_view();
    let mut r: Vec<(String, String)> = Vec::new();
    let mut i: usize = 0;
    assert(ps.take(0) =~= Seq::<Seq<char>>::empty());
    assert(r.deep_view() =~= Seq::<(Seq<char>, Seq<char>)>::empty());
    while i < parts.len()
        invariant
            i <= parts@.len(),
            ps == parts.deep_view(),
            r.deep_view() == sorted_pairs(ps.take(i as int)),
        decreases parts@.len() - i,
    {
        let ghost rv = r.deep_view();
        proof {
            assert(ps.take(i as int + 1).drop_last() =~= ps.take(i as int));
            assert(ps.take(i as int + 1).last() == ps[i as int]);
            assert(ps[i as int] == parts@[i as int]@);
        }
        let x: (String, String) = match cut_at(parts[i].as_str(), '=') {
            Some(p) => p,
            None => (parts[i].clone(), String::new()),
        };
        let ghost xv = (x.0@, x.1@);
        proof {
            if cut_first(ps[i as int], '=') is None {
                assert(x.1@ =~= Seq::<char>::empty());
            }
            assert(xv == raw_pair(ps[i as int]));
        }
        let mut p: usize = 0;
        assert(rv.skip(0) =~= rv);
        while p < r.len() && !comes_before(&x, &r[p])
            invariant
                p <= r@.len(),
                rv == r.deep_view(),
                xv == (x.0@, x.1@),
                pair_place(rv, xv) == p + pair_place(rv.skip(p as int), xv),
            decreases r@.len() - p,
        {
            proof {
                assert(rv[p as int] == (r@[p as int].0@, r@[p as int].1@));
                assert(rv.skip(p as int)[0] == rv[p as int]);
                assert(rv.skip(p as int).drop_first() =~= rv.skip(p as int + 1));
            }
            p += 1;
        }
        proof {
            if p < r@.len() {
                assert(rv[p as int] == (r@[p as int].0@, r@[p as int].1@));
                assert(rv.skip(p as int)[0] == rv[p as int]);
            }
            assert(pair_place(rv, xv) == p);
        }
        r.insert(p, x);
        assert(r.deep_view() =~= rv.insert(p as int, xv));
        i += 1;
    }
    assert(ps.take(ps.len() as int) =~= ps);
    r
}

/// The canonical form of a query string.
pub fn normalize_query(raw: &str) -> (r: String)
    ensures
        r@ == canonical_query(raw@),
{
    let all = split_text(raw, '&');
    let parts = drop_empty(&all);
    let pairs = sort_pairs(&parts);
    let ghost pv = pairs.deep_view();
    let ghost want = pv.map_values(|p: (Seq<char>, Seq<char>)| pair_text(p));
    let mut texts: Vec<String> = Vec::new();
    let mut i: usize = 0;
    while i < pairs.len()
        invariant
            i <= pairs@.len(),
            pv == pairs.deep_view(),
            want == pv.map_values(|p: (Seq<char>, Seq<char>)| pair_text(p)),
            texts@.len() == i,
            forall|j: int| 0 <= j < i ==> (#[trigger] texts@[j])@ == want[j],
        decreases pairs@.len() - i,
    {
        assert(pv[i as int] == (pairs@[i as int].0@, pairs@[i as int].1@));
        texts.push(concat3(pairs[i].0.as_str(), "=", pairs[i].1.as_str()));
        i += 1;
    }
    assert(texts.deep_view() =~= want);
    join_texts(&texts, "&")
}

/// The values of the headers with the given name, in order, each with single
/// spaces between its words.
pub open spec fn header_values(headers: Seq<(Seq<char>, Seq<char>)>, name: Seq<char>) -> Seq<
    Seq<char>,
>
    decreases headers.len(),
{
    if headers.len() == 0 {
        Seq::empty()
    } else {
        let rest = header_values(headers.drop_last(), name);
        if headers.last().0 == name {
            rest.push(joined(words(headers.last().1), " "@))
        } else {
            rest
        }
    }
}

/// The canonical value of a header: its values with commas between them.
pub open spec fn canonical_header(headers: Seq<(Seq<char>, Seq<char>)>, name: Seq<char>) -> Seq<
    char,
> {
    joined(header_values(headers, name), ","@)
}

pub(crate) fn canonical_value(headers: &Vec<(String, String)>, name: &str) -> (r: String)
    ensures
        r@ == canonical_header(headers.deep_view(), name@),
{
    let ghost hs = headers.deep_view();
    let mut vals: Vec<String> = Vec::new();
    let mut i: usize = 0;
    assert(hs.take(0) =~= Seq::<(Seq<char>, Seq<char>)>::empty());
    assert(vals.deep_view() =~= Seq::<Seq<char>>::empty());
    while i < headers.len()
        invariant
            i <= headers@.len(),
            hs == headers.deep_view(),
            vals.deep_view() == header_values(hs.take(i as int), name@),
        decreases headers@.len() - i,
    {
        let ghost vv = vals.deep_view();
        proof {
            assert(hs.take(i as int + 1).drop_last() =~= hs.take(i as int));
            assert(hs.take(i as int + 1).last() == hs[i as int]);
            assert(hs[i as int] == (headers@[i as int].0@, headers@[i as int].1@));
        }
        if text_eq(headers[i].0.as_str(), name) {
            let v = squeeze(headers[i].1.as_str());
            vals.push(v);
            assert(vals.deep_view() =~= vv.push(v@));
        }
        i += 1;
    }
    assert(hs.take(hs.len() as int) =~= hs);
    join_texts(&vals, ",")
}

} // verus!
