//! Temporary credentials for a role, handed out to the holder of a web
//! identity token.

use crate::ids::{is_uuid, lemma_first_digits, strip_hyphens, without_hyphens};
use crate::parse::{after_last, last_part};
use crate::s3::auth_middleware::SessionData;
use crate::s3::outside::{rfc3339_seconds, seconds_text, LAST_SECOND};
use crate::text::{chars_of, concat, concat3, string_of, text_eq};
use crate::words::{ascii_upper, to_upper};
use rand::distr::Alphanumeric;
use rand::Rng;
use vstd::prelude::*;
use vstd::string::*;
use vstd::utf8::*;

verus! {

/// The parameters of a request for temporary credentials.
#[derive(Debug, Clone)]
pub struct StsQueryParams {
    pub action: Option<String>,
    pub duration_seconds: Option<u64>,
    pub role_arn: Option<String>,
    pub role_session_name: Option<String>,
    pub web_identity_token: Option<String>,
}

/// What the parameters stand for.
pub struct StsQueryView {
    pub action: Option<Seq<char>>,
    pub duration_seconds: Option<u64>,
    pub role_arn: Option<Seq<char>>,
    pub role_session_name: Option<Seq<char>>,
    pub web_identity_token: Option<Seq<char>>,
}

impl View for StsQueryParams {
    type V = StsQueryView;

    open spec fn view(&self) -> StsQueryView {
        StsQueryView {
            action: self.action.deep_view(),
            duration_seconds: self.duration_seconds,
            role_arn: self.role_arn.deep_view(),
            role_session_name: self.role_session_name.deep_view(),
            web_identity_token: self.web_identity_token.deep_view(),
        }
    }
}

#[derive(Debug)]
pub struct AssumeRoleWithWebIdentityResponse {
    pub result: AssumeRoleWithWebIdentityResult,
}

#[derive(Debug)]
pub struct AssumeRoleWithWebIdentityResult {
    pub credentials: Credentials,
    pub subject_from_web_identity_token: String,
    pub assumed_role_user: AssumedRoleUser,
}

#[derive(Debug)]
pub struct Credentials {
    pub access_key_id: String,
    pub secret_access_key: String,
    pub session_token: String,
    pub expiration: String,
}

#[derive(Debug)]
pub struct AssumedRoleUser {
    pub assumed_role_id: String,
    pub arn: String,
}

/// Which parts of the server are switched on.
#[derive(Debug, Clone, Copy, PartialEq, Eq, Structural)]
pub struct StsSettings {
    pub oidc_enabled: bool,
    pub sts_enabled: bool,
    pub iam_enabled: bool,
}

/// A request that fails: how it is answered, logged and counted.
#[derive(Debug)]
pub struct StsFailure {
    pub status: u16,
    pub code: String,
    /// What the body says; without it there is no body
    pub message: Option<String>,
    /// Under which error it is counted
    pub label: String,
    pub user_id: String,
    pub role_arn: Option<String>,
}

/// What a failure stands for.
pub struct FailureView {
    pub status: u16,
    pub code: Seq<char>,
    pub message: Option<Seq<char>>,
    pub label: Seq<char>,
    pub user_id: Seq<char>,
    pub role_arn: Option<Seq<char>>,
}

impl View for StsFailure {
    type V = FailureView;

    open spec fn view(&self) -> FailureView {
        FailureView {
            status: self.status,
            code: self.code@,
            message: self.message.deep_view(),
            label: self.label@,
            user_id: self.user_id@,
            role_arn: self.role_arn.deep_view(),
        }
    }
}

/// The body that tells of an error.
pub open spec fn error_text(code: Seq<char>, message: Seq<char>) -> Seq<char> {
    "<ErrorResponse><Error><Code>"@ + code + "</Code><Message>"@ + message
        + "</Message></Error><RequestId></RequestId></ErrorResponse>"@
}

/// The body that tells of an error.
pub fn sts_error(code: &str, message: &str) -> (r: String)
    ensures
        r@ == error_text(code@, message@),
{
    let mut r = concat3("<ErrorResponse><Error><Code>", code, "</Code><Message>");
    r.append(message);
    r.append("</Message></Error><RequestId></RequestId></ErrorResponse>");
    r
}

/// The action under which a request is logged.
pub open spec fn logged_action(params: StsQueryView) -> Seq<char> {
    match params.action {
        Some(a) => a,
        None => "Unknown"@,
    }
}

/// The action under which a request is logged.
pub fn action_text(params: &StsQueryParams) -> (r: String)
    ensures
        r@ == logged_action(params@),
{
    match &params.action {
        Some(a) => a.clone(),
        None => "Unknown".to_owned(),
    }
}

/// A failure of a request of which nothing is known.
pub open spec fn anonymous(
    status: u16,
    code: Seq<char>,
    message: Seq<char>,
    label: Seq<char>,
) -> FailureView {
    FailureView {
        status,
        code,
        message: Some(message),
        label,
        user_id: "anonymous"@,
        role_arn: None,
    }
}

/// Why a request fails at once, if it does.
pub open spec fn refusal(s: StsSettings, p: StsQueryView) -> Option<FailureView> {
    if p.action != Some("AssumeRoleWithWebIdentity"@) {
        Some(
            FailureView {
                status: 400,
                code: "InvalidAction"@,
                message: None,
                label: "invalid_action"@,
                user_id: "anonymous"@,
                role_arn: None,
            },
        )
    } else if !s.oidc_enabled {
        Some(
            anonymous(
                500,
                "OIDC_NOT_ENABLED"@,
                "OIDC validation is not enabled on this server."@,
                "oidc_not_enabled"@,
            ),
        )
    } else if !s.sts_enabled {
        Some(
            anonymous(
                500,
                "STS_NOT_ENABLED"@,
                "STS is not enabled on this server."@,
                "sts_not_enabled"@,
            ),
        )
    } else if !s.iam_enabled {
        Some(
            anonymous(
                500,
                "IAM_NOT_ENABLED"@,
                "IAM policy evaluation is not enabled on this server."@,
                "iam_not_enabled"@,
            ),
        )
    } else if p.web_identity_token is None {
        Some(
            anonymous(400, "MissingToken"@, "WebIdentityToken is required"@, "missing_token"@),
        )
    } else if p.role_arn is None {
        Some(anonymous(400, "MissingRole"@, "RoleArn is required"@, "missing_role"@))
    } else {
        None
    }
}

fn fail(status: u16, code: &str, message: &str, label: &str) -> (r: StsFailure)
    ensures
        r@ == anonymous(status, code@, message@, label@),
{
    StsFailure {
        status,
        code: code.to_owned(),
        message: Some(message.to_owned()),
        label: label.to_owned(),
        user_id: "anonymous".to_owned(),
        role_arn: None,
    }
}

/// What a valid request names: the token that is to be validated, and the
/// role.
#[derive(Debug)]
pub struct RoleRequest {
    pub token: String,
    pub role_arn: String,
}

/// Looks at a request: why it fails at once, or else the token that is to be
/// validated and the role.
pub fn handle_sts(settings: StsSettings, params: &StsQueryParams) -> (r: Result<
    RoleRequest,
    StsFailure,
>)
    ensures
        match r {
            Ok(q) => refusal(settings, params@) is None && params@.web_identity_token == Some(
                q.token@,
            ) && params@.role_arn == Some(q.role_arn@),
            Err(f) => refusal(settings, params@) == Some(f@),
        },
{
    let known = match &params.action {
        Some(a) => text_eq(a.as_str(), "AssumeRoleWithWebIdentity"),
        None => false,
    };
    if !known {
        return Err(
            StsFailure {
                status: 400,
                code: "InvalidAction".to_owned(),
                message: None,
                label: "invalid_action".to_owned(),
                user_id: "anonymous".to_owned(),
                role_arn: None,
            },
        );
    }
    if !settings.oidc_enabled {
        return Err(
            fail(
                500,
                "OIDC_NOT_ENABLED",
                "OIDC validation is not enabled on this server.",
                "oidc_not_enabled",
            ),
        );
    }
    if !settings.sts_enabled {
        return Err(
            fail(
                500,
                "STS_NOT_ENABLED",
                "STS is not enabled on this server.",
                "sts_not_enabled",
            ),
        );
    }
    if !settings.iam_enabled {
        return Err(
            fail(
                500,
                "IAM_NOT_ENABLED",
                "IAM policy evaluation is not enabled on this server.",
                "iam_not_enabled",
            ),
        );
    }
    let token = match &params.web_identity_token {
        Some(t) => t.clone(),
        None => {
            return Err(
                fail(400, "MissingToken", "WebIdentityToken is required", "missing_token"),
            );
        },
    };
    let role_arn = match &params.role_arn {
        Some(r) => r.clone(),
        None => {
            return Err(fail(400, "MissingRole", "RoleArn is required", "missing_role"));
        },
    };
    Ok(RoleRequest { token, role_arn })
}

/// The failure of a request whose token is not valid, for the given reason.
pub fn invalid_token(role_arn: &str, reason: &str) -> (r: StsFailure)
    ensures
        r@ == (FailureView {
            status: 403,
            code: "InvalidIdentityToken"@,
            message: Some(reason@),
            label: "invalid_identity_token"@,
            user_id: "anonymous"@,
            role_arn: Some(role_arn@),
        }),
{
    StsFailure {
        status: 403,
        code: "InvalidIdentityToken".to_owned(),
        message: Some(reason.to_owned()),
        label: "invalid_identity_token".to_owned(),
        user_id: "anonymous".to_owned(),
        role_arn: Some(role_arn.to_owned()),
    }
}

/// The failure of a request for a role that does not trust the subject.
pub open spec fn denied(role_arn: Seq<char>, subject: Seq<char>) -> FailureView {
    FailureView {
        status: 403,
        code: "AccessDenied"@,
        message: Some("User is not authorized to assume this role."@),
        label: "access_denied"@,
        user_id: subject,
        role_arn: Some(role_arn),
    }
}

/// The failure of a request for a role that does not trust the subject; none
/// where it does.
pub fn check_trust(role_arn: &str, subject: &str, trusted: bool) -> (r: Option<StsFailure>)
    ensures
        match r {
            Some(f) => !trusted && f@ == denied(role_arn@, subject@),
            None => trusted,
        },
{
    if trusted {
        return None;
    }
    Some(
        StsFailure {
            status: 403,
            code: "AccessDenied".to_owned(),
            message: Some("User is not authorized to assume this role.".to_owned()),
            label: "access_denied".to_owned(),
            user_id: subject.to_owned(),
            role_arn: Some(role_arn.to_owned()),
        },
    )
}

/// The failure of a request for which something went wrong in the server.
pub open spec fn broken(
    role_arn: Seq<char>,
    subject: Seq<char>,
    reason: Option<Seq<char>>,
) -> FailureView {
    FailureView {
        status: 500,
        code: "InternalError"@,
        message: reason,
        label: "internal_error"@,
        user_id: subject,
        role_arn: Some(role_arn),
    }
}

/// The failure of a request for which something went wrong in the server;
/// without a reason nothing is said of it.
pub fn internal_error(role_arn: &str, subject: &str, reason: Option<String>) -> (r: StsFailure)
    ensures
        r@ == broken(role_arn@, subject@, reason.deep_view()),
{
    StsFailure {
        status: 500,
        code: "InternalError".to_owned(),
        message: reason,
        label: "internal_error".to_owned(),
        user_id: subject.to_owned(),
        role_arn: Some(role_arn.to_owned()),
    }
}

/// A letter or digit of ASCII.
pub open spec fn is_alphanumeric(c: char) -> bool {
    'a' <= c <= 'z' || 'A' <= c <= 'Z' || '0' <= c <= '9'
}

/// As many letters and digits as asked for, drawn with `Rng::sample_iter` and
/// `Alphanumeric` from the generator of the thread (`rand::rng`). Which ones is
/// left to chance.
#[verifier::external_body]
fn random_letters(n: usize) -> (r: String)
    ensures
        r@.len() == n,
        forall|i: int| 0 <= i < n ==> is_alphanumeric(#[trigger] r@[i]),
{
    rand::rng().sample_iter(&Alphanumeric).take(n).map(char::from).collect()
}

/// A secret key: forty letters and digits, drawn at random.
pub fn new_secret_key() -> (r: String)
    ensures
        r@.len() == 40,
        forall|i: int| 0 <= i < 40 ==> is_alphanumeric(#[trigger] r@[i]),
{
    random_letters(40)
}

/// The access key that belongs to an identifier: `ASIA` and the first sixteen
/// digits, in upper case.
pub open spec fn access_key(id: Seq<char>) -> Seq<char> {
    "ASIA"@ + without_hyphens(id).take(16).map_values(|c: char| ascii_upper(c))
}

/// The access key that belongs to an identifier.
pub fn access_key_for(id: &str) -> (r: String)
    requires
        is_uuid(id@),
    ensures
        r@ == access_key(id@),
{
    let digits = strip_hyphens(id);
    let v = chars_of(digits.as_str());
    proof {
        lemma_first_digits(id@);
    }
    let mut first: Vec<char> = Vec::new();
    let mut i: usize = 0;
    while i < 16
        invariant
            i <= 16 <= v@.len(),
            first@ == v@.take(i as int),
        decreases 16 - i,
    {
        first.push(v[i]);
        assert(v@.take(i as int + 1) =~= v@.take(i as int).push(v@[i as int]));
        i += 1;
    }
    let text = string_of(first.as_slice());
    let plain = concat("ASIA", text.as_str());
    proof {
        reveal_strlit("ASIA");
        let t = text@;
        let f = |c: char| ascii_upper(c);
        assert(t =~= without_hyphens(id@).take(16));
        assert forall|j: int| 0 <= j < t.len() implies 0 <= (#[trigger] t[j]) as u32 <= 127 by {
            let s = id@;
            let k: int = if j < 8 {
                j
            } else if j < 12 {
                j + 1
            } else {
                j + 2
            };
            assert(t[j] == s[k]);
        }
        assert(is_ascii_chars(plain@));
        assert(plain@.map_values(f) =~= "ASIA"@ + t.map_values(f));
    }
    to_upper(plain.as_str())
}

/// How long a session lasts, in seconds.
pub open spec fn duration_of(p: StsQueryView) -> u64 {
    match p.duration_seconds {
        Some(d) => d,
        None => 3600,
    }
}

/// The seconds for which the session lasts.
pub fn session_seconds(params: &StsQueryParams) -> (r: u64)
    ensures
        r == duration_of(params@),
{
    match params.duration_seconds {
        Some(d) => d,
        None => 3600,
    }
}

/// When a session ends, in seconds since the epoch; nothing where no date can
/// name that moment.
pub fn expiration(params: &StsQueryParams, now: u64) -> (r: Option<u64>)
    ensures
        r == if now + duration_of(params@) <= LAST_SECOND {
            Some((now + duration_of(params@)) as u64)
        } else {
            None
        },
{
    let duration: u64 = session_seconds(params);
    let last: u64 = 8210266876799;
    if now > last || duration > last - now {
        None
    } else {
        Some(now + duration)
    }
}

/// The name under which a role is assumed.
pub open spec fn session_name(p: StsQueryView) -> Seq<char> {
    match p.role_session_name {
        Some(n) => n,
        None => "session"@,
    }
}

/// What is answered once the session token was made: the credentials, and the
/// role as what follows the last slash of its name, together with the name of
/// the session.
pub fn respond(
    params: &StsQueryParams,
    role_arn: &str,
    subject: &str,
    access_key_id: String,
    secret_access_key: String,
    session_token: String,
    expires: u64,
) -> (r: AssumeRoleWithWebIdentityResponse)
    requires
        expires <= LAST_SECOND,
    ensures
        ({
            let c = r.result.credentials;
            let u = r.result.assumed_role_user;
            let role = after_last(role_arn@, '/');
            let name = session_name(params@);
            &&& c.access_key_id@ == access_key_id@
            &&& c.secret_access_key@ == secret_access_key@
            &&& c.session_token@ == session_token@
            &&& rfc3339_seconds(expires as i64) == Some(c.expiration@)
            &&& r.result.subject_from_web_identity_token@ == subject@
            &&& u.assumed_role_id@ == role + ":"@ + name
            &&& u.arn@ == "arn:dfs:sts:::assumed-role/"@ + role + "/"@ + name
        }),
{
    let written = seconds_text(expires as i64);
    let expiration: String = match written {
        Some(t) => t,
        None => String::new(),
    };
    let name: String = match &params.role_session_name {
        Some(n) => n.clone(),
        None => "session".to_owned(),
    };
    let role = last_part(role_arn, '/');
    let assumed_role_id = concat3(role.as_str(), ":", name.as_str());
    let mut arn = concat3("arn:dfs:sts:::assumed-role/", role.as_str(), "/");
    arn.append(name.as_str());
    AssumeRoleWithWebIdentityResponse {
        result: AssumeRoleWithWebIdentityResult {
            credentials: Credentials {
                access_key_id,
                secret_access_key,
                session_token,
                expiration,
            },
            subject_from_web_identity_token: subject.to_owned(),
            assumed_role_user: AssumedRoleUser { assumed_role_id, arn },
        },
    }
}

/// What a web identity token says: the subject, and all claims as they came.
#[derive(Debug)]
pub struct Claims {
    pub sub: String,
    pub text: String,
}

/// What claims stand for.
pub struct ClaimsView {
    pub sub: Seq<char>,
    pub text: Seq<char>,
}

impl View for Claims {
    type V = ClaimsView;

    open spec fn view(&self) -> ClaimsView {
        ClaimsView { sub: self.sub@, text: self.text@ }
    }
}

/// What a role is assumed with: the session and the claims that its token is
/// to be made from, and the access key.
#[derive(Debug)]
pub struct Grant {
    pub session: SessionData,
    pub claims: Claims,
    pub access_key: String,
}

/// No date can name the end of the session.
pub open spec fn too_late(p: StsQueryView, now: u64) -> bool {
    now + duration_of(p) > LAST_SECOND
}

/// Decides on a request whose token is valid: a role that does not trust the
/// subject is refused; else this is what the session token is to be made from.
/// `id` and `secret` are drawn for the session.
pub fn grant(
    params: &StsQueryParams,
    role_arn: String,
    claims: Claims,
    trusted: bool,
    now: u64,
    id: &str,
    secret: String,
) -> (r: Result<Grant, StsFailure>)
    requires
        is_uuid(id@),
    ensures
        r is Ok == (trusted && !too_late(params@, now)),
        match r {
            Ok(g) => {
                &&& g.session.role_arn@ == role_arn@
                &&& g.session.temp_secret_key@ == secret@
                &&& g.session.expiration == now + duration_of(params@)
                &&& g.session.expiration <= LAST_SECOND
                &&& g.claims@ == claims@
                &&& g.access_key@ == access_key(id@)
            },
            Err(f) => f@ == if trusted {
                broken(role_arn@, claims@.sub, None)
            } else {
                denied(role_arn@, claims@.sub)
            },
        },
{
    if let Some(f) = check_trust(role_arn.as_str(), claims.sub.as_str(), trusted) {
        return Err(f);
    }
    match expiration(params, now) {
        Some(end) => Ok(
            Grant {
                session: SessionData { role_arn, temp_secret_key: secret, expiration: end },
                claims,
                access_key: access_key_for(id),
            },
        ),
        None => Err(internal_error(role_arn.as_str(), claims.sub.as_str(), None)),
    }
}

/// Answers a request once its session token was made, or could not be made:
/// the answer carries the token, and the secret and the end of the session
/// that it was made from.
pub fn finish(params: &StsQueryParams, g: Grant, token: Result<String, String>) -> (r: Result<
    AssumeRoleWithWebIdentityResponse,
    StsFailure,
>)
    requires
        g.session.expiration <= LAST_SECOND,
    ensures
        match (token, r) {
            (Ok(t), Ok(a)) => {
                let c = a.result.credentials;
                let u = a.result.assumed_role_user;
                let role = after_last(g.session.role_arn@, '/');
                let name = session_name(params@);
                &&& c.access_key_id@ == g.access_key@
                &&& c.secret_access_key@ == g.session.temp_secret_key@
                &&& c.session_token@ == t@
                &&& rfc3339_seconds(g.session.expiration as i64) == Some(c.expiration@)
                &&& a.result.subject_from_web_identity_token@ == g.claims@.sub
                &&& u.assumed_role_id@ == role + ":"@ + name
                &&& u.arn@ == "arn:dfs:sts:::assumed-role/"@ + role + "/"@ + name
            },
            (Err(e), Err(f)) => f@ == broken(g.session.role_arn@, g.claims@.sub, Some(e@)),
            _ => false,
        },
{
    match token {
        Ok(t) => Ok(
            respond(
                params,
                g.session.role_arn.as_str(),
                g.claims.sub.as_str(),
                g.access_key,
                g.session.temp_secret_key,
                t,
                g.session.expiration,
            ),
        ),
        Err(e) => Err(
            internal_error(g.session.role_arn.as_str(), g.claims.sub.as_str(), Some(e)),
        ),
    }
}

} // verus!
