//! How a request is vouched for: when its credentials are looked at and with
//! which secret its signature is verified, what the signature covers, and what
//! action and resource the policies are asked for.

use crate::ids::{is_uuid, lemma_first_digits};
use crate::parse::{joined, nonempty, split};
use crate::ranges::law_text_order;
use crate::reading::{law_cut, law_cut_undoes_joining, law_split_in_two, law_split_undoes_joining};
use crate::s3::auth::{
    action_of, canonical_header, canonical_query, components, has_param, header_values, pair_lt,
    pair_place, pair_text, param, raw_pair, remote_address, resource_of, s3_error_response,
    sorted_pairs, status_of, AuthError, AuthErrorView,
};
use crate::s3::auth_middleware::{
    record_of, too_skewed, AuthRequestView, CredentialsView, NoteCodeView, NoteView, PhaseView,
    SettingsView, StepView,
};
use crate::s3::objects::Method;
use crate::s3::outside::{millis_of, request_moment, MomentView};
use crate::s3::sts::{
    access_key, broken, denied, duration_of, finish, grant, refusal, session_name, sts_error,
    too_late, AssumeRoleWithWebIdentityResponse, Claims, Grant, StsFailure, StsQueryParams,
    StsQueryView, StsSettings,
};
use crate::sorting::{in_order, lemma_sorted, sorted_texts};
use crate::text::{occurs, occurs_at};
use crate::words::{ascii_upper, lowercase, words};
use vstd::prelude::*;
use vstd::string::*;

verus! {

/// Authentication is skipped only where it is off or a session is asked for;
/// where TLS is required, a request that did not come over it is refused; any
/// other one has its credentials read.
pub proof fn law_how_it_begins(s: SettingsView, req: AuthRequestView)
    ensures
        ({
            let asks = req.query matches Some(q) && occurs(q, "Action=AssumeRoleWithWebIdentity"@);
            let tls = req.https || req.forwarded_proto == Some("https"@);
            &&& s.begin(req) is Skip <==> !s.auth_enabled || asks
            &&& s.begin(req) is Refuse <==> s.auth_enabled && !asks && s.require_tls && !tls
            &&& s.begin(req) is Refuse ==> s.begin(req)->error is InsecureTransport
            &&& s.begin(req) is Read <==> s.auth_enabled && !asks && (!s.require_tls || tls)
        }),
{
}

/// The time of a moment without a leap second, in nanoseconds since the epoch.
pub open spec fn nanos_of(m: MomentView) -> int {
    m.secs * 1_000_000_000 + m.nanos
}

/// A request is too early or too late when its time is sixteen minutes or more
/// from that of the server, on either side.
pub proof fn law_time_window(now: MomentView, at: MomentView)
    requires
        now.nanos < 1_000_000_000,
        at.nanos < 1_000_000_000,
    ensures
        too_skewed(now, at) <==> nanos_of(now) >= nanos_of(at) + 960_000_000_000 || nanos_of(at)
            >= nanos_of(now) + 960_000_000_000,
{
}

/// Credentials that could not be read, a time that is too far off, another
/// region and another service are refused. What is left goes on: with the
/// session token where there is one, and else with the secret key of the
/// access key that was named; and with the very credentials.
pub proof fn law_credentials_are_checked(
    s: SettingsView,
    req: AuthRequestView,
    c: CredentialsView,
    e: AuthErrorView,
    now: MomentView,
)
    ensures
        s.with_credentials(req, Err(e), now) matches StepView::Refuse { error, .. } && error == e,
        ({
            let step = s.with_credentials(req, Ok(c), now);
            let late = request_moment(c.timestamp) matches Some(t) && too_skewed(now, t);
            let wrong = c.region != s.server_region || c.service != "s3"@;
            &&& late ==> (step matches StepView::Refuse { error, .. } && error == (
            AuthErrorView::RequestTimeTooSkewed {
                server_time: now.text,
                request_time: request_moment(c.timestamp)->0.text,
            }))
            &&& !late && wrong ==> (step matches StepView::Refuse { error, .. } && error == (
            AuthErrorView::InvalidCredentialScope {
                expected: c.date + "/"@ + s.server_region + "/"@ + "s3"@ + "/aws4_request"@,
                received: c.date + "/"@ + c.region + "/"@ + c.service + "/aws4_request"@,
            }))
            &&& !late && !wrong && req.token() is None ==> step == (StepView::LookUp {
                access_key: c.access_key,
                phase: PhaseView::Secret { credentials: c },
            })
            &&& !late && !wrong && req.token() is Some && s.sts_enabled ==> step == (
            StepView::Open {
                token: req.token()->0,
                phase: PhaseView::Session { credentials: c },
            })
            &&& !late && !wrong && req.token() is Some && !s.sts_enabled ==> step is Refuse
        }),
{
}

/// The session token is that of the header, or else that of the query.
pub proof fn law_where_the_token_is(req: AuthRequestView)
    ensures
        req.security_token is Some ==> req.token() == req.security_token,
        req.security_token is None ==> req.token() == param(req.params(), "X-Amz-Security-Token"@),
{
}

/// The signature is verified with the secret that was found for the access key,
/// or with that of the session, whose role is then remembered. A session that
/// has ended, an access key that is not known, and a body that is not signed
/// where it has to be are refused; nothing else is.
pub proof fn law_which_secret_verifies(
    s: SettingsView,
    req: AuthRequestView,
    c: CredentialsView,
    role: Seq<char>,
    secret: Seq<char>,
    expiration: u64,
    now: MomentView,
)
    requires
        now.secs >= 0,
    ensures
        ({
            let open = req.payload_hash is None || req.payload_hash == Some("UNSIGNED-PAYLOAD"@);
            let refused = open && !s.allow_unsigned_payload;
            let with_key = s.with_secret(req, c, Some(secret));
            let with_session = s.with_session(req, c, Ok((role, secret, expiration)), now);
            &&& s.with_secret(req, c, None) matches StepView::Refuse { error, .. } && error == (
            AuthErrorView::InvalidAccessKey { access_key: c.access_key })
            &&& refused ==> with_key is Refuse
            &&& !refused ==> with_key == (StepView::Verify {
                input: req.signing(c.signed_headers),
                secret,
                phase: PhaseView::Signature { credentials: c, role: None },
            })
            &&& expiration < now.secs ==> (with_session matches StepView::Refuse { error, .. }
                && error is ExpiredToken)
            &&& expiration >= now.secs && refused ==> with_session is Refuse
            &&& expiration >= now.secs && !refused ==> with_session == (StepView::Verify {
                input: req.signing(c.signed_headers),
                secret,
                phase: PhaseView::Signature { credentials: c, role: Some(role) },
            })
        }),
{
}

/// The signature covers the method, the path, the query, the hash of the body,
/// and each header that the credentials name, under its name in lower case and
/// with its canonical value; and no other header.
pub proof fn law_what_is_signed(req: AuthRequestView, names: Seq<Seq<char>>, i: int, k: Seq<char>)
    ensures
        ({
            let x = req.signing(names);
            &&& x.method == req.method_text
            &&& x.path == req.path
            &&& x.query_string == canonical_query(
                if req.query is Some {
                    req.query->0
                } else {
                    Seq::empty()
                },
            )
            &&& exists|q: Seq<Seq<char>>|
                #![trigger in_order(q)]
                in_order(q) && q.to_multiset() == names.map_values(
                    |m: Seq<char>| lowercase(m),
                ).to_multiset() && x.signed_headers_list == joined(q, ";"@)
            &&& req.payload_hash is Some ==> x.payload_hash == req.payload_hash->0
            &&& req.payload_hash is None ==> x.payload_hash == "UNSIGNED-PAYLOAD"@
            &&& 0 <= i < names.len() ==> x.headers.contains_key(lowercase(names[i]))
                && x.headers[lowercase(names[i])] == canonical_header(
                req.headers,
                lowercase(names[i]),
            )
            &&& x.headers.contains_key(k) ==> exists|j: int|
                0 <= j < names.len() && k == lowercase(#[trigger] names[j])
        }),
{
    let low = names.map_values(|n: Seq<char>| lowercase(n));
    lemma_sorted(low);
    assert(in_order(sorted_texts(low)));
    assert(low =~= names.map_values(|m: Seq<char>| lowercase(m)));
    if 0 <= i < names.len() {
        assert(low[i] == lowercase(names[i]));
        assert(low.contains(lowercase(names[i])));
    }
    if low.contains(k) {
        let j = low.index_of(k);
        assert(k == lowercase(names[j]));
    }
}

/// A request whose signature does not hold is refused with the error that was
/// found. One whose signature holds is served for the access key that it names,
/// unless it acts for a role and policies are in force: then they are asked
/// about that role, and about the action and the resource of the request.
pub proof fn law_verdicts(
    s: SettingsView,
    req: AuthRequestView,
    c: CredentialsView,
    role: Option<Seq<char>>,
    e: AuthErrorView,
    allowed: bool,
)
    ensures
        s.with_verdict(req, c, role, Err(e)) matches StepView::Refuse { error, .. } && error == e,
        role is None || !s.policies_enabled ==> s.with_verdict(req, c, role, Ok(())) == (
        StepView::Serve { user_id: c.access_key, role }),
        role matches Some(r) ==> s.policies_enabled ==> {
            &&& s.with_verdict(req, c, role, Ok(())) matches StepView::Ask {
                role_arn,
                action,
                resource,
                phase,
            }
            &&& role_arn == r
            &&& action == action_of(req.method, components(req.path).len() as int, req.params())
            &&& resource == resource_of(req.method, components(req.path))
            &&& phase == (PhaseView::Policy { credentials: c, role_arn: r })
            &&& s.with_decision(req, c, r, true) == (StepView::Serve {
                user_id: c.access_key,
                role: Some(r),
            })
            &&& s.with_decision(req, c, r, false) is Refuse
        },
{
}

/// A refusal after the credentials were read is noted for the access key that
/// they name, with the status of the error.
pub proof fn law_refusals_are_noted(
    s: SettingsView,
    req: AuthRequestView,
    c: CredentialsView,
    role: Option<Seq<char>>,
    e: AuthErrorView,
)
    ensures
        s.with_verdict(req, c, role, Err(e)) matches StepView::Refuse { note, .. } && note
            matches Some(n) && n.user_id == c.access_key && n.role_arn == role && n.status_code
            == status_of(e) && n.action == action_of(
            req.method,
            components(req.path).len() as int,
            req.params(),
        ) && n.resource == resource_of(req.method, components(req.path)),
        status_of(e) == if e is InvalidCredentialScope {
            400
        } else if e is InternalError {
            500
        } else {
            403u16
        },
{
}

/// The record of a note tells what the note tells, when and from where; the
/// code of an error stands in it unless the request was served.
pub proof fn law_record_tells_the_note(
    n: NoteView,
    at: MomentView,
    request_id: Seq<char>,
    remote_ip: Seq<char>,
    user_agent: Option<Seq<char>>,
    error_code: Seq<char>,
)
    ensures
        ({
            let r = record_of(n, at, request_id, remote_ip, user_agent, error_code);
            &&& r.user_id == n.user_id
            &&& r.role_arn == n.role_arn
            &&& r.action == n.action
            &&& r.resource == n.resource
            &&& r.status_code == n.status_code
            &&& r.timestamp == at.text
            &&& r.timestamp_ms == millis_of(at)
            &&& r.request_id == request_id
            &&& r.remote_ip == remote_ip
            &&& r.user_agent == user_agent
            &&& n.code is Nothing <==> r.error_code is None
            &&& n.code is OfError ==> r.error_code == Some(error_code)
            &&& n.code matches NoteCodeView::Named { code } ==> r.error_code == Some(code)
        }),
{
}

/// A parameter is a name, and a value behind the first `=` if there is one; the
/// name holds no `=`.
pub proof fn law_parameters_are_pairs(s: Seq<char>, name: Seq<char>, value: Seq<char>)
    requires
        !name.contains('='),
    ensures
        raw_pair(name + "="@ + value) == (name, value),
        raw_pair(name) == (name, Seq::<char>::empty()),
        !raw_pair(s).0.contains('='),
{
    reveal_strlit("=");
    assert("="@ =~= seq!['=']);
    law_cut_undoes_joining(name, '=', value);
    law_cut(name, '=');
    law_cut(s, '=');
    if let Some(p) = crate::parse::cut_first(name, '=') {
        assert(name[p.0.len() as int] == '=');
        assert(name.contains('='));
    }
}

/// No pair comes before one that stands before it.
pub open spec fn pairs_in_order(s: Seq<(Seq<char>, Seq<char>)>) -> bool {
    forall|i: int, j: int| 0 <= i < j < s.len() ==> !pair_lt(#[trigger] s[j], #[trigger] s[i])
}

proof fn lemma_pairs(
    a: (Seq<char>, Seq<char>),
    b: (Seq<char>, Seq<char>),
    c: (Seq<char>, Seq<char>),
)
    ensures
        !pair_lt(a, a),
        pair_lt(a, b) ==> !pair_lt(b, a),
        pair_lt(a, b) || pair_lt(b, a) || a == b,
        pair_lt(a, b) && !pair_lt(c, b) ==> pair_lt(a, c),
        !pair_lt(b, a) && !pair_lt(c, b) ==> !pair_lt(c, a),
{
    law_text_order(a.0, b.0, c.0);
    law_text_order(a.1, b.1, c.1);
    law_text_order(b.0, a.0, c.0);
    law_text_order(b.1, a.1, c.1);
    law_text_order(c.0, b.0, a.0);
    law_text_order(c.1, b.1, a.1);
    law_text_order(b.0, c.0, a.0);
    law_text_order(b.1, c.1, a.1);
    law_text_order(c.0, a.0, b.0);
    law_text_order(c.1, a.1, b.1);
    law_text_order(a.0, c.0, b.0);
    law_text_order(a.1, c.1, b.1);
}

proof fn lemma_pair_place(s: Seq<(Seq<char>, Seq<char>)>, x: (Seq<char>, Seq<char>))
    requires
        pairs_in_order(s),
    ensures
        pair_place(s, x) <= s.len(),
        forall|i: int| 0 <= i < pair_place(s, x) ==> !pair_lt(x, #[trigger] s[i]),
        forall|i: int| pair_place(s, x) <= i < s.len() ==> pair_lt(x, #[trigger] s[i]),
    decreases s.len(),
{
    if s.len() > 0 {
        let t = s.drop_first();
        assert(pairs_in_order(t)) by {
            assert forall|i: int, j: int| 0 <= i < j < t.len() implies !pair_lt(
                #[trigger] t[j],
                #[trigger] t[i],
            ) by {
                assert(t[i] == s[i + 1] && t[j] == s[j + 1]);
            }
        }
        lemma_pair_place(t, x);
        if pair_lt(x, s[0]) {
            assert forall|i: int| 0 <= i < s.len() implies pair_lt(x, #[trigger] s[i]) by {
                if i > 0 {
                    assert(!pair_lt(s[i], s[0]));
                    lemma_pairs(x, s[0], s[i]);
                }
            }
        } else {
            assert forall|i: int| 0 <= i < pair_place(s, x) implies !pair_lt(
                x,
                #[trigger] s[i],
            ) by {
                if i > 0 {
                    assert(s[i] == t[i - 1]);
                }
            }
            assert forall|i: int| pair_place(s, x) <= i < s.len() implies pair_lt(
                x,
                #[trigger] s[i],
            ) by {
                assert(s[i] == t[i - 1]);
            }
        }
    }
}

/// The parameters of a canonical query are those of the query, each as often as
/// it is there, in order of their names and values.
pub proof fn law_query_is_put_in_order(parts: Seq<Seq<char>>)
    ensures
        pairs_in_order(sorted_pairs(parts)),
        sorted_pairs(parts).len() == parts.len(),
        sorted_pairs(parts).to_multiset() == parts.map_values(
            |p: Seq<char>| raw_pair(p),
        ).to_multiset(),
    decreases parts.len(),
{
    broadcast use vstd::seq_lib::group_to_multiset_ensures;

    let f = |p: Seq<char>| raw_pair(p);
    if parts.len() > 0 {
        let d = parts.drop_last();
        let x = raw_pair(parts.last());
        let r = sorted_pairs(d);
        law_query_is_put_in_order(d);
        lemma_pair_place(r, x);
        let p = pair_place(r, x) as int;
        let t = r.insert(p, x);
        assert forall|i: int, j: int| 0 <= i < j < t.len() implies !pair_lt(
            #[trigger] t[j],
            #[trigger] t[i],
        ) by {
            if i != p {
                assert(t[i] == r[if i < p {
                    i
                } else {
                    i - 1
                }]);
            }
            if j != p {
                assert(t[j] == r[if j < p {
                    j
                } else {
                    j - 1
                }]);
            }
            lemma_pairs(x, t[i], t[j]);
            lemma_pairs(x, t[j], t[i]);
        }
        assert(parts.map_values(f) =~= d.map_values(f).push(x));
        assert(t.to_multiset() =~= r.to_multiset().insert(x));
    } else {
        assert(sorted_pairs(parts) =~= parts.map_values(f));
    }
}

proof fn lemma_same_pairs(a: Seq<(Seq<char>, Seq<char>)>, b: Seq<(Seq<char>, Seq<char>)>)
    requires
        pairs_in_order(a),
        pairs_in_order(b),
        a.to_multiset() == b.to_multiset(),
    ensures
        a == b,
    decreases a.len(),
{
    broadcast use vstd::seq_lib::group_to_multiset_ensures;

    assert(a.len() == a.to_multiset().len());
    assert(b.len() == b.to_multiset().len());
    if a.len() > 0 {
        let x = a.last();
        let y = b.last();
        assert(a.contains(x)) by {
            assert(a[a.len() - 1] == x);
        }
        assert(b.contains(y)) by {
            assert(b[b.len() - 1] == y);
        }
        assert(a.to_multiset().count(x) > 0);
        assert(b.to_multiset().count(y) > 0);
        assert(b.contains(x));
        assert(a.contains(y));
        let i = b.index_of(x);
        let j = a.index_of(y);
        if i < b.len() - 1 {
            assert(!pair_lt(b[b.len() - 1], b[i]));
        }
        if j < a.len() - 1 {
            assert(!pair_lt(a[a.len() - 1], a[j]));
        }
        lemma_pairs(x, y, y);
        assert(x == y);
        let c = a.drop_last();
        let d = b.drop_last();
        assert(a =~= c.push(x));
        assert(b =~= d.push(x));
        assert(c.to_multiset() =~= a.to_multiset().remove(x));
        assert(d.to_multiset() =~= b.to_multiset().remove(x));
        assert(pairs_in_order(c)) by {
            assert forall|p: int, q: int| 0 <= p < q < c.len() implies !pair_lt(
                #[trigger] c[q],
                #[trigger] c[p],
            ) by {
                assert(c[p] == a[p] && c[q] == a[q]);
            }
        }
        assert(pairs_in_order(d)) by {
            assert forall|p: int, q: int| 0 <= p < q < d.len() implies !pair_lt(
                #[trigger] d[q],
                #[trigger] d[p],
            ) by {
                assert(d[p] == b[p] && d[q] == b[q]);
            }
        }
        lemma_same_pairs(c, d);
    } else {
        assert(a =~= b);
    }
}

/// The order in which the parameters of a query stand does not matter to its
/// canonical form.
pub proof fn law_query_order_does_not_matter(a: Seq<char>, b: Seq<char>)
    requires
        nonempty(split(a, '&')).map_values(|p: Seq<char>| raw_pair(p)).to_multiset() == nonempty(
            split(b, '&'),
        ).map_values(|p: Seq<char>| raw_pair(p)).to_multiset(),
    ensures
        canonical_query(a) == canonical_query(b),
{
    let p = nonempty(split(a, '&'));
    let q = nonempty(split(b, '&'));
    law_query_is_put_in_order(p);
    law_query_is_put_in_order(q);
    lemma_same_pairs(sorted_pairs(p), sorted_pairs(q));
}

proof fn lemma_plain(s: Seq<char>, c: char)
    requires
        s.len() > 0,
        !s.contains(c),
    ensures
        nonempty(split(s, c)) == seq![s],
{
    let e = Seq::<char>::empty();
    law_split_undoes_joining(e, c, s);
    crate::reading::law_split_and_join(s, c);
    let p = split(s, c);
    if p.len() > 1 {
        let i = p.len() - 1;
        let head = joined(p.drop_last(), seq![c]);
        assert(s == head + seq![c] + p.last());
        assert(s[head.len() as int] == c);
        assert(s.contains(c));
    }
    assert(p =~= seq![p[0]]);
    assert(joined(p, seq![c]) == p[0]);
    reveal_with_fuel(nonempty, 2);
    assert(p.drop_last() =~= Seq::<Seq<char>>::empty());
    assert(nonempty(p) =~= seq![s]);
}

/// A query with one parameter is canonical with a `=` behind the name.
pub proof fn law_single_parameter(name: Seq<char>, value: Seq<char>)
    requires
        name.len() > 0,
        !name.contains('='),
        !name.contains('&'),
        !value.contains('&'),
    ensures
        canonical_query(name + "="@ + value) == name + "="@ + value,
        canonical_query(name) == name + "="@,
        canonical_query(Seq::empty()) == Seq::<char>::empty(),
{
    reveal_strlit("=");
    assert("="@ =~= seq!['=']);
    let s = name + "="@ + value;
    assert(!s.contains('&')) by {
        if s.contains('&') {
            let i = s.index_of('&');
            if i < name.len() {
                assert(name[i] == '&');
            } else if i > name.len() {
                assert(value[i - name.len() - 1] == '&');
            }
        }
    }
    lemma_plain(s, '&');
    lemma_plain(name, '&');
    law_parameters_are_pairs(s, name, value);
    let f = |p: (Seq<char>, Seq<char>)| pair_text(p);
    reveal_with_fuel(sorted_pairs, 2);
    let one = seq![s];
    let two = seq![name];
    assert(one.drop_last() =~= Seq::<Seq<char>>::empty());
    assert(two.drop_last() =~= Seq::<Seq<char>>::empty());
    assert(sorted_pairs(one) =~= seq![(name, value)]);
    assert(sorted_pairs(two) =~= seq![(name, Seq::<char>::empty())]);
    assert(sorted_pairs(one).map_values(f) =~= seq![s]);
    assert(sorted_pairs(two).map_values(f) =~= seq![name + "="@ + Seq::<char>::empty()]);
    assert(name + "="@ + Seq::<char>::empty() =~= name + "="@);
    let none = Seq::<char>::empty();
    assert(split(none, '&') =~= seq![none]);
    reveal_with_fuel(nonempty, 2);
    assert(seq![none].drop_last() =~= Seq::<Seq<char>>::empty());
    assert(nonempty(split(none, '&')).len() == 0);
    assert(sorted_pairs(nonempty(split(none, '&'))).map_values(f).len() == 0);
}

/// The values of a header are those of the headers with its name, in their
/// order; a header that is not there has none.
pub proof fn law_header_values(headers: Seq<(Seq<char>, Seq<char>)>, name: Seq<char>, i: int)
    ensures
        0 <= i < headers.len() && headers[i].0 == name ==> header_values(headers, name).contains(
            joined(words(headers[i].1), " "@),
        ),
        header_values(headers, name).len() <= headers.len(),
        !has_param(headers, name) ==> header_values(headers, name).len() == 0 && canonical_header(
            headers,
            name,
        ).len() == 0,
    decreases headers.len(),
{
    if headers.len() > 0 {
        let d = headers.drop_last();
        let r = header_values(d, name);
        let all = header_values(headers, name);
        law_header_values(d, name, i);
        assert(headers[headers.len() - 1] == headers.last());
        if has_param(d, name) {
            let j = choose|j: int| 0 <= j < d.len() && (#[trigger] d[j]).0 == name;
            assert(headers[j].0 == name);
        }
        if 0 <= i < headers.len() && headers[i].0 == name {
            let x = joined(words(headers[i].1), " "@);
            if i < d.len() {
                assert(d[i] == headers[i]);
                assert(all[r.index_of(x)] == x);
            } else {
                assert(all[r.len() as int] == x);
            }
        }
    }
}

/// A header that is given once has its words with one space between two as its
/// canonical value.
pub proof fn law_single_header(name: Seq<char>, value: Seq<char>)
    ensures
        canonical_header(seq![(name, value)], name) == joined(words(value), " "@),
{
    let h = seq![(name, value)];
    let x = joined(words(value), " "@);
    reveal_with_fuel(header_values, 2);
    assert(h.drop_last() =~= Seq::<(Seq<char>, Seq<char>)>::empty());
    assert(header_values(h, name) =~= seq![x]);
}

/// A parameter has the value that is given for it first; one that is not given
/// has none.
pub proof fn law_first_parameter_counts(
    params: Seq<(Seq<char>, Seq<char>)>,
    k: Seq<char>,
    i: int,
)
    requires
        0 <= i < params.len(),
        params[i].0 == k,
        forall|j: int| 0 <= j < i ==> (#[trigger] params[j]).0 != k,
    ensures
        param(params, k) == Some(params[i].1),
        has_param(params, k),
    decreases i,
{
    if i > 0 {
        let t = params.drop_first();
        assert(params[0].0 != k);
        assert forall|j: int| 0 <= j < i - 1 implies (#[trigger] t[j]).0 != k by {
            assert(params[j + 1].0 != k);
        }
        assert(t[i - 1] == params[i]);
        law_first_parameter_counts(t, k, i - 1);
    }
}

/// The path of an object names its bucket and its key as resource, and that of
/// a bucket the bucket; everything is meant where nothing is named.
pub proof fn law_resources(method: Method, bucket: Seq<char>, key: Seq<char>)
    requires
        method != Method::Other,
        bucket.len() > 0,
        !bucket.contains('/'),
        key.len() > 0,
        !key.contains('/'),
    ensures
        components("/"@ + bucket + "/"@ + key) == seq![bucket, key],
        resource_of(method, components("/"@ + bucket + "/"@ + key)) == "arn:dfs:s3:::"@ + (bucket
            + "/"@ + key),
        components("/"@ + bucket) == seq![bucket],
        resource_of(method, components("/"@ + bucket)) == "arn:dfs:s3:::"@ + bucket,
        resource_of(method, components("/"@)) == "arn:dfs:s3:::*"@,
{
    reveal_strlit("/");
    assert("/"@ =~= seq!['/']);
    let e = Seq::<char>::empty();
    let one = "/"@ + bucket;
    let two = "/"@ + bucket + "/"@ + key;
    assert(one =~= e + seq!['/'] + bucket);
    law_split_in_two(e, '/', bucket);
    law_split_undoes_joining(one, '/', key);
    assert(two =~= one + seq!['/'] + key);
    let p1 = seq![e, bucket];
    let p2 = seq![e, bucket, key];
    assert(split(one, '/') =~= p1);
    assert(split(two, '/') =~= p2);
    reveal_with_fuel(nonempty, 4);
    assert(p2.drop_last() =~= p1);
    assert(p1.drop_last() =~= seq![e]);
    assert(seq![e].drop_last() =~= Seq::<Seq<char>>::empty());
    assert(nonempty(p1) =~= seq![bucket]);
    assert(nonempty(p2) =~= seq![bucket, key]);
    reveal_with_fuel(joined, 3);
    assert(seq![bucket, key].drop_last() =~= seq![bucket]);
    law_split_in_two(e, '/', e);
    assert("/"@ =~= e + seq!['/'] + e);
    let p0 = seq![e, e];
    assert(p0.drop_last() =~= seq![e]);
    assert(nonempty(p0).len() == 0);
}

/// The address of a request is that of its connection; where that is not known,
/// the one that a proxy gives, and else the first one that was forwarded.
pub proof fn law_remote_address(
    connection: Option<Seq<char>>,
    real_ip: Option<Seq<char>>,
    forwarded_for: Option<Seq<char>>,
)
    ensures
        connection matches Some(a) ==> remote_address(connection, real_ip, forwarded_for) == a,
        connection is None && real_ip is Some ==> remote_address(connection, real_ip, forwarded_for)
            == crate::words::trimmed(real_ip->0),
        connection is None && real_ip is None && forwarded_for is None ==> remote_address(
            connection,
            real_ip,
            forwarded_for,
        ) == "unknown"@,
{
}

/// Reading asks for actions that read or list, writing for ones that put or
/// create, deleting for ones that delete; without parameters they are those on
/// the object, or on the bucket where the path names no object.
pub proof fn law_actions(n: int, params: Seq<(Seq<char>, Seq<char>)>)
    requires
        n >= 0,
    ensures
        params.len() == 0 ==> {
            &&& action_of(Method::Get, 0, params) == "s3:ListAllMyBuckets"@
            &&& action_of(Method::Get, 1, params) == "s3:ListBucket"@
            &&& action_of(Method::Put, 1, params) == "s3:CreateBucket"@
            &&& action_of(Method::Delete, 1, params) == "s3:DeleteBucket"@
            &&& action_of(Method::Head, 1, params) == "s3:HeadBucket"@
            &&& n >= 2 ==> {
                &&& action_of(Method::Get, n, params) == "s3:GetObject"@
                &&& action_of(Method::Put, n, params) == "s3:PutObject"@
                &&& action_of(Method::Delete, n, params) == "s3:DeleteObject"@
                &&& action_of(Method::Head, n, params) == "s3:HeadObject"@
            }
        },
        n >= 1 && (has_param(params, "uploads"@) || has_param(params, "uploadId"@)) ==> action_of(
            Method::Post,
            n,
            params,
        ) == "s3:PutObject"@,
        n >= 2 && has_param(params, "acl"@) ==> action_of(Method::Get, n, params)
            == "s3:GetObjectAcl"@ && action_of(Method::Put, n, params) == "s3:PutObjectAcl"@,
        n >= 2 && !has_param(params, "acl"@) && has_param(params, "tagging"@) ==> action_of(
            Method::Get,
            n,
            params,
        ) == "s3:GetObjectTagging"@ && action_of(Method::Put, n, params) == "s3:PutObjectTagging"@
            && action_of(Method::Delete, n, params) == "s3:DeleteObjectTagging"@,
        has_param(params, "acl"@) ==> action_of(Method::Get, 1, params) == "s3:GetBucketAcl"@
            && action_of(Method::Put, 1, params) == "s3:PutBucketAcl"@,
        !has_param(params, "acl"@) && !has_param(params, "tagging"@) && has_param(
            params,
            "policy"@,
        ) ==> action_of(Method::Get, 1, params) == "s3:GetBucketPolicy"@ && action_of(
            Method::Put,
            1,
            params,
        ) == "s3:PutBucketPolicy"@ && action_of(Method::Delete, 1, params)
            == "s3:DeleteBucketPolicy"@,
{
}

/// A role is asked for in the right way exactly if the action is the one that is
/// offered, what is needed is switched on, and a token and a role are given.
pub proof fn law_who_may_ask_for_a_role(s: StsSettings, p: StsQueryView)
    ensures
        refusal(s, p) is None <==> p.action == Some("AssumeRoleWithWebIdentity"@) && s.oidc_enabled
            && s.sts_enabled && s.iam_enabled && p.web_identity_token is Some && p.role_arn is Some,
        refusal(s, p) matches Some(f) ==> f.status == 400 || f.status == 500,
        p.action != Some("AssumeRoleWithWebIdentity"@) ==> refusal(s, p)->0.status == 400,
        p.action == Some("AssumeRoleWithWebIdentity"@) && !(s.oidc_enabled && s.sts_enabled
            && s.iam_enabled) ==> refusal(s, p)->0.status == 500,
        p.action == Some("AssumeRoleWithWebIdentity"@) && s.oidc_enabled && s.sts_enabled
            && s.iam_enabled && !(p.web_identity_token is Some && p.role_arn is Some) ==> refusal(
            s,
            p,
        )->0.status == 400,
{
}

/// A session lasts as long as was asked for, or else an hour, and is named as
/// was asked for; a role that does not trust the subject is denied with 403.
pub proof fn law_sessions(p: StsQueryView, now: u64, role: Seq<char>, subject: Seq<char>)
    ensures
        p.duration_seconds matches Some(d) ==> duration_of(p) == d,
        p.duration_seconds is None ==> duration_of(p) == 60 * 60,
        p.role_session_name matches Some(n) ==> session_name(p) == n,
        p.role_session_name is None ==> session_name(p) == "session"@,
        denied(role, subject).status == 403,
        denied(role, subject).user_id == subject,
        denied(role, subject).role_arn == Some(role),
        broken(role, subject, None).status == 500,
        now as int + duration_of(p) < 8_000_000_000_000 ==> !too_late(p, now),
{
}

/// The access key of a session has twenty characters: `ASIA`, and the first
/// sixteen digits of the identifier in upper case.
pub proof fn law_access_keys(id: Seq<char>, i: int)
    requires
        is_uuid(id),
        0 <= i < 16,
    ensures
        access_key(id).len() == 20,
        "ASIA"@.is_prefix_of(access_key(id)),
        access_key(id)[4 + i] == ascii_upper(
            id[if i < 8 {
                i
            } else if i < 12 {
                i + 1
            } else {
                i + 2
            }],
        ),
{
    reveal_strlit("ASIA");
    lemma_first_digits(id);
    let k = access_key(id);
    assert("ASIA"@ =~= k.take(4));
}

/// The milliseconds of a moment after the epoch.
pub proof fn law_millis(m: MomentView)
    requires
        0 <= m.secs <= 8_210_266_876_799,
        m.nanos < 1_000_000_000,
    ensures
        millis_of(m) as int == nanos_of(m) / 1_000_000,
{
}

/// A role is granted exactly to a subject that it trusts, for as long as was
/// asked for and with the secret that was drawn. What is answered carries the
/// token, the key and the secret of that session; a token that could not be made
/// is answered with 500.
pub proof fn law_grants(
    params: StsQueryParams,
    role_arn: String,
    claims: Claims,
    trusted: bool,
    now: u64,
    id: &str,
    secret: String,
    r: Result<Grant, StsFailure>,
    token: Result<String, String>,
    a: Result<AssumeRoleWithWebIdentityResponse, StsFailure>,
)
    requires
        is_uuid(id@),
        now as int + duration_of(params@) < 8_000_000_000_000,
        call_ensures(grant, (&params, role_arn, claims, trusted, now, id, secret), r),
        r matches Ok(g) ==> call_ensures(finish, (&params, g, token), a),
    ensures
        r is Ok <==> trusted,
        r matches Err(f) ==> f@.status == 403 && f@.user_id == claims@.sub && f@.role_arn == Some(
            role_arn@,
        ),
        r matches Ok(g) ==> {
            &&& g.session.expiration == now + duration_of(params@)
            &&& g.session.role_arn@ == role_arn@
            &&& a is Ok <==> token is Ok
            &&& a matches Ok(x) ==> {
                &&& x.result.credentials.session_token@ == token->Ok_0@
                &&& x.result.credentials.secret_access_key@ == secret@
                &&& x.result.credentials.access_key_id@ == access_key(id@)
                &&& x.result.subject_from_web_identity_token@ == claims@.sub
            }
            &&& a matches Err(f) ==> f@.status == 500
        },
{
}

/// What an error is answered with: its status, and a body that tells its code
/// and its message, each in its place.
pub proof fn law_errors_are_told(
    e: AuthError,
    code: &str,
    message: &str,
    r: (u16, String),
    body: String,
)
    requires
        call_ensures(s3_error_response, (&e, code, message), r),
        call_ensures(sts_error, (code, message), body),
    ensures
        r.0 == status_of(e@),
        occurs(r.1@, "<Code>"@ + code@ + "</Code>"@),
        occurs(r.1@, "<Message>"@ + message@ + "</Message>"@),
        occurs(body@, "<Code>"@ + code@ + "</Code>"@),
        occurs(body@, "<Message>"@ + message@ + "</Message>"@),
{
    reveal_strlit("<Code>");
    reveal_strlit("</Code>");
    reveal_strlit("<Message>");
    reveal_strlit("</Message>");
    reveal_strlit("<?xml version=\"1.0\" encoding=\"UTF-8\"?>\n<Error>\n  <Code>");
    reveal_strlit("</Code>\n  <Message>");
    reveal_strlit("</Message>\n  <Resource>/</Resource>\n</Error>");
    reveal_strlit("<ErrorResponse><Error><Code>");
    reveal_strlit("</Code><Message>");
    reveal_strlit("</Message></Error><RequestId></RequestId></ErrorResponse>");
    let c = "<Code>"@ + code@ + "</Code>"@;
    let m = "<Message>"@ + message@ + "</Message>"@;
    let a = "<?xml version=\"1.0\" encoding=\"UTF-8\"?>\n<Error>\n  <Code>"@.len() - 6;
    let t = r.1@;
    assert(t.subrange(a, a + c.len()) =~= c);
    assert(occurs_at(t, c, a));
    let b = a + 6 + code@.len() + "</Code>\n  <Message>"@.len() - 9;
    assert(t.subrange(b, b + m.len()) =~= m);
    assert(occurs_at(t, m, b));
    let x = "<ErrorResponse><Error><Code>"@.len() - 6;
    let u = body@;
    assert(u.subrange(x, x + c.len()) =~= c);
    assert(occurs_at(u, c, x));
    let y = x + 6 + code@.len() + "</Code><Message>"@.len() - 9;
    assert(u.subrange(y, y + m.len()) =~= m);
    assert(occurs_at(u, m, y));
}

} // verus!
