//! The steps by which a request is authenticated: from each answer of the
//! other parts to what is wanted next, until the request is served or refused.

use crate::parse::{join_texts, joined};
use crate::raft::command::text_option_dup;
use crate::s3::audit::{AuditRecord, RecordView};
use crate::s3::auth::{
    action_of, canonical_header, canonical_query, canonical_value, components, error_status,
    find_param,
    normalize_query, or_nothing, param, resolve_s3_action_and_resource,
    resolve_s3_action_and_resource_from_parts, resource_of, status_of, AuthError, AuthErrorView,
};
use crate::s3::objects::Method;
use crate::s3::outside::{
    millis_of, moment_millis, parse_moment, parse_query, query_pairs, request_moment, Moment,
    MomentView,
};
use crate::sorting::{sort_texts, sorted_texts};
use crate::strmap::StrMap;
use crate::text::{concat3, contains_text, occurs, text_eq};
use crate::words::{lowercase, to_lower};
use vstd::prelude::*;
use vstd::string::*;

verus! {

/// How the server authenticates.
#[derive(Debug)]
pub struct AuthSettings {
    pub auth_enabled: bool,
    pub require_tls: bool,
    pub allow_unsigned_payload: bool,
    pub server_region: String,
    /// Session tokens are known
    pub sts_enabled: bool,
    /// Policies are known
    pub policies_enabled: bool,
}

/// What of a request is looked at. Header names are in lower case.
#[derive(Debug)]
pub struct AuthRequest {
    pub method: Method,
    pub method_text: String,
    pub path: String,
    pub query: Option<String>,
    /// The request itself says that it came over TLS
    pub https: bool,
    pub forwarded_proto: Option<String>,
    pub security_token: Option<String>,
    pub payload_hash: Option<String>,
    pub headers: Vec<(String, String)>,
}

/// What a request stands for.
pub struct AuthRequestView {
    pub method: Method,
    pub method_text: Seq<char>,
    pub path: Seq<char>,
    pub query: Option<Seq<char>>,
    pub https: bool,
    pub forwarded_proto: Option<Seq<char>>,
    pub security_token: Option<Seq<char>>,
    pub payload_hash: Option<Seq<char>>,
    pub headers: Seq<(Seq<char>, Seq<char>)>,
}

impl View for AuthRequest {
    type V = AuthRequestView;

    open spec fn view(&self) -> AuthRequestView {
        AuthRequestView {
            method: self.method,
            method_text: self.method_text@,
            path: self.path@,
            query: self.query.deep_view(),
            https: self.https,
            forwarded_proto: self.forwarded_proto.deep_view(),
            security_token: self.security_token.deep_view(),
            payload_hash: self.payload_hash.deep_view(),
            headers: self.headers.deep_view(),
        }
    }
}

/// The credentials that a request names.
#[derive(Debug)]
pub struct ParsedCredentials {
    pub access_key: String,
    pub date: String,
    pub region: String,
    pub service: String,
    pub timestamp: String,
    pub signed_headers: Vec<String>,
}

/// What credentials stand for.
pub struct CredentialsView {
    pub access_key: Seq<char>,
    pub date: Seq<char>,
    pub region: Seq<char>,
    pub service: Seq<char>,
    pub timestamp: Seq<char>,
    pub signed_headers: Seq<Seq<char>>,
}

impl View for ParsedCredentials {
    type V = CredentialsView;

    open spec fn view(&self) -> CredentialsView {
        CredentialsView {
            access_key: self.access_key@,
            date: self.date@,
            region: self.region@,
            service: self.service@,
            timestamp: self.timestamp@,
            signed_headers: self.signed_headers.deep_view(),
        }
    }
}

/// What a session token holds.
#[derive(Debug)]
pub struct SessionData {
    pub role_arn: String,
    pub temp_secret_key: String,
    /// In seconds since the epoch
    pub expiration: u64,
}

/// What a request's signature is computed from.
#[derive(Debug)]
pub struct SigningInput {
    pub method: String,
    pub path: String,
    pub query_string: String,
    /// Names and values of the signed headers
    pub headers: StrMap<String>,
    pub signed_headers_list: String,
    pub payload_hash: String,
}

/// What a signing input stands for.
#[verifier::ext_equal]
pub struct SigningView {
    pub method: Seq<char>,
    pub path: Seq<char>,
    pub query_string: Seq<char>,
    pub headers: Map<Seq<char>, Seq<char>>,
    pub signed_headers_list: Seq<char>,
    pub payload_hash: Seq<char>,
}

impl View for SigningInput {
    type V = SigningView;

    open spec fn view(&self) -> SigningView {
        SigningView {
            method: self.method@,
            path: self.path@,
            query_string: self.query_string@,
            headers: self.headers@,
            signed_headers_list: self.signed_headers_list@,
            payload_hash: self.payload_hash@,
        }
    }
}

/// The code that goes into the audit log.
#[derive(Debug)]
pub enum NoteCode {
    /// The request was served
    Nothing,
    /// What the error is called
    OfError,
    /// This code, whatever the error is called
    Named { code: String },
}

/// What a code stands for.
pub enum NoteCodeView {
    Nothing,
    OfError,
    Named { code: Seq<char> },
}

impl View for NoteCode {
    type V = NoteCodeView;

    open spec fn view(&self) -> NoteCodeView {
        match self {
            NoteCode::Nothing => NoteCodeView::Nothing,
            NoteCode::OfError => NoteCodeView::OfError,
            NoteCode::Named { code } => NoteCodeView::Named { code: code@ },
        }
    }
}

/// What is noted of a request in the audit log.
#[derive(Debug)]
pub struct AuditNote {
    pub user_id: String,
    pub role_arn: Option<String>,
    pub action: String,
    pub resource: String,
    pub status_code: u16,
    pub code: NoteCode,
}

/// What a note stands for.
pub struct NoteView {
    pub user_id: Seq<char>,
    pub role_arn: Option<Seq<char>>,
    pub action: Seq<char>,
    pub resource: Seq<char>,
    pub status_code: u16,
    pub code: NoteCodeView,
}

impl View for AuditNote {
    type V = NoteView;

    open spec fn view(&self) -> NoteView {
        NoteView {
            user_id: self.user_id@,
            role_arn: self.role_arn.deep_view(),
            action: self.action@,
            resource: self.resource@,
            status_code: self.status_code,
            code: self.code@,
        }
    }
}

impl DeepView for AuditNote {
    type V = NoteView;

    open spec fn deep_view(&self) -> NoteView {
        self.view()
    }
}

/// The record for a note, made at a moment for a request from an address; an
/// error is called `error_code`.
pub open spec fn record_of(
    n: NoteView,
    at: MomentView,
    request_id: Seq<char>,
    remote_ip: Seq<char>,
    user_agent: Option<Seq<char>>,
    error_code: Seq<char>,
) -> RecordView {
    RecordView {
        timestamp: at.text,
        timestamp_ms: millis_of(at),
        request_id,
        remote_ip,
        user_id: n.user_id,
        role_arn: n.role_arn,
        action: n.action,
        resource: n.resource,
        status_code: n.status_code,
        error_code: match n.code {
            NoteCodeView::Nothing => None,
            NoteCodeView::OfError => Some(error_code),
            NoteCodeView::Named { code } => Some(code),
        },
        user_agent,
        duration_ms: None,
    }
}

impl AuditNote {
    /// The record for a note.
    pub fn record(
        &self,
        at: &Moment,
        request_id: &str,
        remote_ip: &str,
        user_agent: &Option<String>,
        error_code: &str,
    ) -> (r: AuditRecord)
        ensures
            r@ == record_of(
                self@,
                at@,
                request_id@,
                remote_ip@,
                user_agent.deep_view(),
                error_code@,
            ),
    {
        AuditRecord {
            timestamp: at.text.clone(),
            timestamp_ms: moment_millis(at),
            request_id: request_id.to_owned(),
            remote_ip: remote_ip.to_owned(),
            user_id: self.user_id.clone(),
            role_arn: text_option_dup(&self.role_arn),
            action: self.action.clone(),
            resource: self.resource.clone(),
            status_code: self.status_code,
            error_code: match &self.code {
                NoteCode::Nothing => None,
                NoteCode::OfError => Some(error_code.to_owned()),
                NoteCode::Named { code } => Some(code.clone()),
            },
            user_agent: text_option_dup(user_agent),
            duration_ms: None,
        }
    }
}

/// Where the authentication of a request stands.
#[derive(Debug)]
pub enum AuthPhase {
    /// The credentials are to be read from the request
    Credentials,
    /// The session token is to be opened
    Session { credentials: ParsedCredentials },
    /// The secret key is to be looked up
    Secret { credentials: ParsedCredentials },
    /// The signature is to be verified
    Signature { credentials: ParsedCredentials, role: Option<String> },
    /// The policies are to be asked
    Policy { credentials: ParsedCredentials, role_arn: String },
}

/// What a phase stands for.
pub enum PhaseView {
    Credentials,
    Session { credentials: CredentialsView },
    Secret { credentials: CredentialsView },
    Signature { credentials: CredentialsView, role: Option<Seq<char>> },
    Policy { credentials: CredentialsView, role_arn: Seq<char> },
}

impl View for AuthPhase {
    type V = PhaseView;

    open spec fn view(&self) -> PhaseView {
        match self {
            AuthPhase::Credentials => PhaseView::Credentials,
            AuthPhase::Session { credentials } => PhaseView::Session { credentials: credentials@ },
            AuthPhase::Secret { credentials } => PhaseView::Secret { credentials: credentials@ },
            AuthPhase::Signature { credentials, role } => PhaseView::Signature {
                credentials: credentials@,
                role: role.deep_view(),
            },
            AuthPhase::Policy { credentials, role_arn } => PhaseView::Policy {
                credentials: credentials@,
                role_arn: role_arn@,
            },
        }
    }
}

/// An answer of another part. One that the phase did not ask for is a mistake.
#[derive(Debug)]
pub enum AuthEvent {
    Credentials { read: Result<ParsedCredentials, AuthError> },
    Session { opened: Result<SessionData, AuthError> },
    Secret { key: Option<String> },
    Signature { verdict: Result<(), AuthError> },
    Policy { allowed: bool },
}

/// What is wanted next.
#[derive(Debug)]
pub enum AuthStep {
    /// Serve the request; nothing was authenticated and nothing is noted
    Skip,
    /// Read the credentials from the headers and these parameters
    Read { params: Vec<(String, String)> },
    /// Open the session token
    Open { token: String, phase: AuthPhase },
    /// Look up the secret key
    LookUp { access_key: String, phase: AuthPhase },
    /// Verify the signature with the secret key
    Verify { input: SigningInput, secret: String, phase: AuthPhase },
    /// Ask the policies whether the role may do this
    Ask { role_arn: String, action: String, resource: String, phase: AuthPhase },
    /// Serve the request for this user, and note how it was answered
    Serve { user_id: String, role: Option<String> },
    /// Refuse the request with this error, and make this note of it, if any
    Refuse { error: AuthError, note: Option<AuditNote> },
}

/// What a step stands for.
pub enum StepView {
    Skip,
    Read { params: Seq<(Seq<char>, Seq<char>)> },
    Open { token: Seq<char>, phase: PhaseView },
    LookUp { access_key: Seq<char>, phase: PhaseView },
    Verify { input: SigningView, secret: Seq<char>, phase: PhaseView },
    Ask { role_arn: Seq<char>, action: Seq<char>, resource: Seq<char>, phase: PhaseView },
    Serve { user_id: Seq<char>, role: Option<Seq<char>> },
    Refuse { error: AuthErrorView, note: Option<NoteView> },
}

impl View for AuthStep {
    type V = StepView;

    open spec fn view(&self) -> StepView {
        match self {
            AuthStep::Skip => StepView::Skip,
            AuthStep::Read { params } => StepView::Read { params: params.deep_view() },
            AuthStep::Open { token, phase } => StepView::Open { token: token@, phase: phase@ },
            AuthStep::LookUp { access_key, phase } => StepView::LookUp {
                access_key: access_key@,
                phase: phase@,
            },
            AuthStep::Verify { input, secret, phase } => StepView::Verify {
                input: input@,
                secret: secret@,
                phase: phase@,
            },
            AuthStep::Ask { role_arn, action, resource, phase } => StepView::Ask {
                role_arn: role_arn@,
                action: action@,
                resource: resource@,
                phase: phase@,
            },
            AuthStep::Serve { user_id, role } => StepView::Serve {
                user_id: user_id@,
                role: role.deep_view(),
            },
            AuthStep::Refuse { error, note } => StepView::Refuse {
                error: error@,
                note: note.deep_view(),
            },
        }
    }
}

/// What an answer stands for.
pub enum EventView {
    Credentials { read: Result<CredentialsView, AuthErrorView> },
    Session { opened: Result<(Seq<char>, Seq<char>, u64), AuthErrorView> },
    Secret { key: Option<Seq<char>> },
    Signature { verdict: Result<(), AuthErrorView> },
    Policy { allowed: bool },
}

impl View for AuthEvent {
    type V = EventView;

    /// Of a session: its role, its secret key and its expiration.
    open spec fn view(&self) -> EventView {
        match self {
            AuthEvent::Credentials { read } => EventView::Credentials {
                read: match read {
                    Ok(c) => Ok(c@),
                    Err(e) => Err(e@),
                },
            },
            AuthEvent::Session { opened } => EventView::Session {
                opened: match opened {
                    Ok(d) => Ok((d.role_arn@, d.temp_secret_key@, d.expiration)),
                    Err(e) => Err(e@),
                },
            },
            AuthEvent::Secret { key } => EventView::Secret { key: key.deep_view() },
            AuthEvent::Signature { verdict } => EventView::Signature {
                verdict: match verdict {
                    Ok(_) => Ok(()),
                    Err(e) => Err(e@),
                },
            },
            AuthEvent::Policy { allowed } => EventView::Policy { allowed: *allowed },
        }
    }
}

impl EventView {
    /// The answer is one to what the phase asked for.
    pub open spec fn answers(self, phase: PhaseView) -> bool {
        match phase {
            PhaseView::Credentials => self is Credentials,
            PhaseView::Session { .. } => self is Session,
            PhaseView::Secret { .. } => self is Secret,
            PhaseView::Signature { .. } => self is Signature,
            PhaseView::Policy { .. } => self is Policy,
        }
    }
}

/// The nanoseconds from `then` to `now`, a leap second in between counted.
pub open spec fn nanos_since(now: MomentView, then: MomentView) -> int {
    let leap: int = if now.secs as int % 86400 > then.secs as int % 86400 && then.nanos
        >= 1000000000 {
        1
    } else if now.secs as int % 86400 < then.secs as int % 86400 && now.nanos >= 1000000000 {
        -1
    } else {
        0
    };
    (now.secs - then.secs + leap) * 1000000000 + now.nanos - then.nanos
}

/// Two moments lie sixteen minutes or more apart.
pub open spec fn too_skewed(now: MomentView, then: MomentView) -> bool {
    let d = nanos_since(now, then);
    d >= 16 * 60 * 1000000000 || d <= -16 * 60 * 1000000000
}

impl AuthRequestView {
    /// The parameters of the request.
    pub open spec fn params(self) -> Seq<(Seq<char>, Seq<char>)> {
        query_pairs(or_nothing(self.query))
    }

    /// The request came over TLS, itself or up to a proxy.
    pub open spec fn over_tls(self) -> bool {
        self.https || self.forwarded_proto == Some("https"@)
    }

    /// The request asks for a session: it brings a token of its own.
    pub open spec fn for_session(self) -> bool {
        match self.query {
            Some(q) => occurs(q, "Action=AssumeRoleWithWebIdentity"@),
            None => false,
        }
    }

    /// The session token of the request: from the header, or else the query.
    pub open spec fn token(self) -> Option<Seq<char>> {
        match self.security_token {
            Some(t) => Some(t),
            None => param(self.params(), "X-Amz-Security-Token"@),
        }
    }

    /// The hash of the body, or the mark of a body that is not signed.
    pub open spec fn payload(self) -> Seq<char> {
        match self.payload_hash {
            Some(h) => h,
            None => "UNSIGNED-PAYLOAD"@,
        }
    }

    /// A note of the request, read with the given parameters.
    pub open spec fn note(
        self,
        params: Seq<(Seq<char>, Seq<char>)>,
        user_id: Seq<char>,
        role_arn: Option<Seq<char>>,
        status_code: u16,
        code: NoteCodeView,
    ) -> NoteView {
        NoteView {
            user_id,
            role_arn,
            action: action_of(self.method, components(self.path).len() as int, params),
            resource: resource_of(self.method, components(self.path)),
            status_code,
            code,
        }
    }

    /// The request is refused with an error, which gives the code.
    pub open spec fn refuse(
        self,
        error: AuthErrorView,
        user_id: Seq<char>,
        role_arn: Option<Seq<char>>,
    ) -> StepView {
        StepView::Refuse {
            error,
            note: Some(
                self.note(
                    self.params(),
                    user_id,
                    role_arn,
                    status_of(error),
                    NoteCodeView::OfError,
                ),
            ),
        }
    }

    /// The request is refused with an error, under another code.
    pub open spec fn refuse_as(
        self,
        error: AuthErrorView,
        user_id: Seq<char>,
        role_arn: Option<Seq<char>>,
        code: Seq<char>,
    ) -> StepView {
        StepView::Refuse {
            error,
            note: Some(
                self.note(
                    self.params(),
                    user_id,
                    role_arn,
                    status_of(error),
                    NoteCodeView::Named { code },
                ),
            ),
        }
    }

    /// What the signature of the request is computed from.
    pub open spec fn signing(self, signed_headers: Seq<Seq<char>>) -> SigningView {
        let names = signed_headers.map_values(|n: Seq<char>| lowercase(n));
        SigningView {
            method: self.method_text,
            path: self.path,
            query_string: canonical_query(or_nothing(self.query)),
            headers: Map::new(
                |k: Seq<char>| names.contains(k),
                |k: Seq<char>| canonical_header(self.headers, k),
            ),
            signed_headers_list: joined(sorted_texts(names), ";"@),
            payload_hash: self.payload(),
        }
    }
}

/// What the settings stand for.
pub struct SettingsView {
    pub auth_enabled: bool,
    pub require_tls: bool,
    pub allow_unsigned_payload: bool,
    pub server_region: Seq<char>,
    pub sts_enabled: bool,
    pub policies_enabled: bool,
}

impl View for AuthSettings {
    type V = SettingsView;

    open spec fn view(&self) -> SettingsView {
        SettingsView {
            auth_enabled: self.auth_enabled,
            require_tls: self.require_tls,
            allow_unsigned_payload: self.allow_unsigned_payload,
            server_region: self.server_region@,
            sts_enabled: self.sts_enabled,
            policies_enabled: self.policies_enabled,
        }
    }
}

/// A credential scope as it is written.
pub open spec fn scope(date: Seq<char>, region: Seq<char>, service: Seq<char>) -> Seq<char> {
    date + "/"@ + region + "/"@ + service + "/aws4_request"@
}

impl SettingsView {
    /// How the authentication of a request begins.
    pub open spec fn begin(self, req: AuthRequestView) -> StepView {
        if !self.auth_enabled || req.for_session() {
            StepView::Skip
        } else if self.require_tls && !req.over_tls() {
            StepView::Refuse {
                error: AuthErrorView::InsecureTransport,
                note: Some(
                    req.note(
                        Seq::empty(),
                        "anonymous"@,
                        None,
                        403,
                        NoteCodeView::Named { code: "AccessDenied"@ },
                    ),
                ),
            }
        } else {
            StepView::Read { params: req.params() }
        }
    }

    /// What follows once the credentials were read.
    pub open spec fn with_credentials(
        self,
        req: AuthRequestView,
        read: Result<CredentialsView, AuthErrorView>,
        now: MomentView,
    ) -> StepView {
        match read {
            Err(e) => req.refuse(e, "anonymous"@, None),
            Ok(c) => match request_moment(c.timestamp) {
                Some(t) => if too_skewed(now, t) {
                    req.refuse(
                        AuthErrorView::RequestTimeTooSkewed {
                            server_time: now.text,
                            request_time: t.text,
                        },
                        c.access_key,
                        None,
                    )
                } else {
                    self.with_scope(req, c)
                },
                None => self.with_scope(req, c),
            },
        }
    }

    /// What follows once the time of the request was looked at.
    pub open spec fn with_scope(self, req: AuthRequestView, c: CredentialsView) -> StepView {
        if c.region != self.server_region || c.service != "s3"@ {
            req.refuse(
                AuthErrorView::InvalidCredentialScope {
                    expected: scope(c.date, self.server_region, "s3"@),
                    received: scope(c.date, c.region, c.service),
                },
                c.access_key,
                None,
            )
        } else {
            match req.token() {
                Some(token) => if self.sts_enabled {
                    StepView::Open { token, phase: PhaseView::Session { credentials: c } }
                } else {
                    StepView::Refuse {
                        error: AuthErrorView::InternalError {
                            reason: "STS is not enabled on this server"@,
                        },
                        note: None,
                    }
                },
                None => StepView::LookUp {
                    access_key: c.access_key,
                    phase: PhaseView::Secret { credentials: c },
                },
            }
        }
    }

    /// What follows once the session token was opened: role, secret key and
    /// expiration.
    pub open spec fn with_session(
        self,
        req: AuthRequestView,
        c: CredentialsView,
        opened: Result<(Seq<char>, Seq<char>, u64), AuthErrorView>,
        now: MomentView,
    ) -> StepView {
        match opened {
            Err(e) => req.refuse(e, c.access_key, None),
            Ok(s) => if s.2 < now.secs as u64 {
                req.refuse_as(
                    AuthErrorView::ExpiredToken,
                    c.access_key,
                    Some(s.0),
                    "ExpiredToken"@,
                )
            } else {
                self.with_key(req, c, Some(s.0), s.1)
            },
        }
    }

    /// What follows once the secret key was looked up.
    pub open spec fn with_secret(
        self,
        req: AuthRequestView,
        c: CredentialsView,
        key: Option<Seq<char>>,
    ) -> StepView {
        match key {
            None => req.refuse(
                AuthErrorView::InvalidAccessKey { access_key: c.access_key },
                c.access_key,
                None,
            ),
            Some(k) => self.with_key(req, c, None, k),
        }
    }

    /// What follows once there is a secret key.
    pub open spec fn with_key(
        self,
        req: AuthRequestView,
        c: CredentialsView,
        role: Option<Seq<char>>,
        secret: Seq<char>,
    ) -> StepView {
        if req.payload() == "UNSIGNED-PAYLOAD"@ && !self.allow_unsigned_payload {
            req.refuse_as(AuthErrorView::MissingAuth, c.access_key, role, "AccessDenied"@)
        } else {
            StepView::Verify {
                input: req.signing(c.signed_headers),
                secret,
                phase: PhaseView::Signature { credentials: c, role },
            }
        }
    }

    /// What follows once the signature was verified.
    pub open spec fn with_verdict(
        self,
        req: AuthRequestView,
        c: CredentialsView,
        role: Option<Seq<char>>,
        verdict: Result<(), AuthErrorView>,
    ) -> StepView {
        match verdict {
            Err(e) => req.refuse(e, c.access_key, role),
            Ok(_) => match role {
                Some(r) => if self.policies_enabled {
                    StepView::Ask {
                        role_arn: r,
                        action: action_of(
                            req.method,
                            components(req.path).len() as int,
                            req.params(),
                        ),
                        resource: resource_of(req.method, components(req.path)),
                        phase: PhaseView::Policy { credentials: c, role_arn: r },
                    }
                } else {
                    StepView::Serve { user_id: c.access_key, role }
                },
                None => StepView::Serve { user_id: c.access_key, role },
            },
        }
    }

    /// What follows once the policies were asked.
    pub open spec fn with_decision(
        self,
        req: AuthRequestView,
        c: CredentialsView,
        role: Seq<char>,
        allowed: bool,
    ) -> StepView {
        if allowed {
            StepView::Serve { user_id: c.access_key, role: Some(role) }
        } else {
            req.refuse_as(AuthErrorView::MissingAuth, c.access_key, Some(role), "AccessDenied"@)
        }
    }

    /// What follows upon an answer.
    pub open spec fn next(
        self,
        req: AuthRequestView,
        phase: PhaseView,
        event: EventView,
        now: MomentView,
    ) -> StepView {
        match phase {
            PhaseView::Credentials => self.with_credentials(req, event->read, now),
            PhaseView::Session { credentials } => self.with_session(
                req,
                credentials,
                event->opened,
                now,
            ),
            PhaseView::Secret { credentials } => self.with_secret(req, credentials, event->key),
            PhaseView::Signature { credentials, role } => self.with_verdict(
                req,
                credentials,
                role,
                event->verdict,
            ),
            PhaseView::Policy { credentials, role_arn } => self.with_decision(
                req,
                credentials,
                role_arn,
                event->allowed,
            ),
        }
    }
}

fn second_of_day(secs: i64) -> (r: i128)
    ensures
        r == secs as int % 86400,
{
    (secs as i128 + 86400 * 106751991167301) % 86400
}

/// Whether two moments lie sixteen minutes or more apart.
pub fn skewed(now: &Moment, then: &Moment) -> (r: bool)
    ensures
        r == too_skewed(now@, then@),
{
    let a: i128 = second_of_day(now.secs);
    let b: i128 = second_of_day(then.secs);
    let leap: i128 = if a > b && then.nanos >= 1000000000 {
        1
    } else if a < b && now.nanos >= 1000000000 {
        -1
    } else {
        0
    };
    let d: i128 = (now.secs as i128 - then.secs as i128 + leap) * 1000000000 + now.nanos as i128
        - then.nanos as i128;
    d >= 16 * 60 * 1000000000 || d <= -16 * 60 * 1000000000
}

fn scope_text(date: &str, region: &str, service: &str) -> (r: String)
    ensures
        r@ == scope(date@, region@, service@),
{
    let mut r = concat3(date, "/", region);
    r.append("/");
    r.append(service);
    r.append("/aws4_request");
    r
}

impl AuthRequest {
    fn read_params(&self) -> (r: Vec<(String, String)>)
        ensures
            r.deep_view() == self@.params(),
    {
        let raw: String = match &self.query {
            Some(q) => q.clone(),
            None => String::new(),
        };
        assert(raw@ =~= or_nothing(self@.query));
        parse_query(raw.as_str())
    }

    fn make_note(
        &self,
        params: &Vec<(String, String)>,
        user_id: String,
        role_arn: Option<String>,
        status_code: u16,
        code: NoteCode,
    ) -> (r: AuditNote)
        ensures
            r@ == self@.note(
                params.deep_view(),
                user_id@,
                role_arn.deep_view(),
                status_code,
                code@,
            ),
    {
        let (action, resource) = resolve_s3_action_and_resource_from_parts(
            self.method,
            self.path.as_str(),
            params,
        );
        AuditNote { user_id, role_arn, action, resource, status_code, code }
    }

    fn refusal(&self, error: AuthError, user_id: String, role_arn: Option<String>) -> (r: AuthStep)
        ensures
            r@ == self@.refuse(error@, user_id@, role_arn.deep_view()),
    {
        let params = self.read_params();
        let status: u16 = error_status(&error);
        let note = self.make_note(&params, user_id, role_arn, status, NoteCode::OfError);
        AuthStep::Refuse { error, note: Some(note) }
    }

    fn refusal_as(
        &self,
        error: AuthError,
        user_id: String,
        role_arn: Option<String>,
        code: &str,
    ) -> (r: AuthStep)
        ensures
            r@ == self@.refuse_as(error@, user_id@, role_arn.deep_view(), code@),
    {
        let params = self.read_params();
        let status: u16 = error_status(&error);
        let code = NoteCode::Named { code: code.to_owned() };
        let note = self.make_note(&params, user_id, role_arn, status, code);
        AuthStep::Refuse { error, note: Some(note) }
    }

    fn payload_text(&self) -> (r: String)
        ensures
            r@ == self@.payload(),
    {
        match &self.payload_hash {
            Some(h) => h.clone(),
            None => "UNSIGNED-PAYLOAD".to_owned(),
        }
    }

    /// What the signature of the request is computed from.
    pub fn signing_input(&self, signed_headers: &Vec<String>) -> (r: SigningInput)
        ensures
            r@ == self@.signing(signed_headers.deep_view()),
    {
        let ghost sv = signed_headers.deep_view();
        let ghost want = sv.map_values(|n: Seq<char>| lowercase(n));
        let ghost hv = self@.headers;
        let mut names: Vec<String> = Vec::new();
        let mut headers: StrMap<String> = StrMap::new();
        let mut i: usize = 0;
        while i < signed_headers.len()
            invariant
                i <= signed_headers@.len(),
                sv == signed_headers.deep_view(),
                hv == self.headers.deep_view(),
                want == sv.map_values(|n: Seq<char>| lowercase(n)),
                names.deep_view() == want.take(i as int),
                forall|k: Seq<char>| #[trigger]
                    headers@.contains_key(k) == want.take(i as int).contains(k),
                forall|k: Seq<char>| #[trigger]
                    headers@.contains_key(k) ==> headers@[k] == canonical_header(hv, k),
            decreases signed_headers@.len() - i,
        {
            let name = to_lower(signed_headers[i].as_str());
            let value = canonical_value(&self.headers, name.as_str());
            proof {
                assert(sv[i as int] == signed_headers@[i as int]@);
                assert(want[i as int] == name@);
                let a = want.take(i as int);
                let b = want.take(i as int + 1);
                assert(b =~= a.push(name@));
                assert forall|k: Seq<char>| b.contains(k) == (a.contains(k) || k == name@) by {
                    if a.contains(k) {
                        let j = choose|j: int| 0 <= j < a.len() && a[j] == k;
                        assert(b[j] == k);
                    }
                    assert(b[i as int] == name@);
                    if b.contains(k) && k != name@ {
                        let j = choose|j: int| 0 <= j < b.len() && b[j] == k;
                        assert(a[j] == k);
                    }
                }
            }
            headers.insert(name.clone(), value);
            names.push(name);
            assert(names.deep_view() =~= want.take(i as int + 1));
            i += 1;
        }
        assert(want.take(want.len() as int) =~= want);
        let sorted = sort_texts(&names);
        let list = join_texts(&sorted, ";");
        let raw: String = match &self.query {
            Some(q) => q.clone(),
            None => String::new(),
        };
        assert(raw@ =~= or_nothing(self@.query));
        let r = SigningInput {
            method: self.method_text.clone(),
            path: self.path.clone(),
            query_string: normalize_query(raw.as_str()),
            headers,
            signed_headers_list: list,
            payload_hash: self.payload_text(),
        };
        assert(r@.headers =~= self@.signing(sv).headers);
        r
    }

    /// The note of a request that was served.
    pub fn served(&self, user_id: String, role_arn: Option<String>, status_code: u16) -> (r:
        AuditNote)
        ensures
            r@ == self@.note(
                self@.params(),
                user_id@,
                role_arn.deep_view(),
                status_code,
                NoteCodeView::Nothing,
            ),
    {
        let params = self.read_params();
        self.make_note(&params, user_id, role_arn, status_code, NoteCode::Nothing)
    }
}

/// How the authentication of a request begins: it is skipped where it is
/// switched off and for requests that bring a token of their own; a request
/// that did not come over TLS is refused where that is required; else the
/// credentials are wanted.
pub fn auth_middleware(settings: &AuthSettings, req: &AuthRequest) -> (r: AuthStep)
    ensures
        r@ == settings@.begin(req@),
{
    if !settings.auth_enabled {
        return AuthStep::Skip;
    }
    if let Some(q) = &req.query {
        if contains_text(q.as_str(), "Action=AssumeRoleWithWebIdentity") {
            return AuthStep::Skip;
        }
    }
    if settings.require_tls {
        let forwarded = match &req.forwarded_proto {
            Some(p) => text_eq(p.as_str(), "https"),
            None => false,
        };
        if !req.https && !forwarded {
            let nothing: Vec<(String, String)> = Vec::new();
            assert(nothing.deep_view() =~= Seq::<(Seq<char>, Seq<char>)>::empty());
            let note = req.make_note(
                &nothing,
                "anonymous".to_owned(),
                None,
                403,
                NoteCode::Named { code: "AccessDenied".to_owned() },
            );
            return AuthStep::Refuse { error: AuthError::InsecureTransport, note: Some(note) };
        }
    }
    AuthStep::Read { params: req.read_params() }
}

impl AuthSettings {
    fn check_credentials(
        &self,
        req: &AuthRequest,
        read: Result<ParsedCredentials, AuthError>,
        now: &Moment,
    ) -> (r: AuthStep)
        ensures
            r@ == self@.with_credentials(
                req@,
                match read {
                    Ok(c) => Ok(c@),
                    Err(e) => Err(e@),
                },
                now@,
            ),
    {
        let c = match read {
            Ok(c) => c,
            Err(e) => {
                return req.refusal(e, "anonymous".to_owned(), None);
            },
        };
        if let Some(t) = parse_moment(c.timestamp.as_str()) {
            if skewed(now, &t) {
                let e = AuthError::RequestTimeTooSkewed {
                    server_time: now.text.clone(),
                    request_time: t.text,
                };
                return req.refusal(e, c.access_key, None);
            }
        }
        self.check_scope(req, c)
    }

    fn check_scope(&self, req: &AuthRequest, c: ParsedCredentials) -> (r: AuthStep)
        ensures
            r@ == self@.with_scope(req@, c@),
    {
        let same_region = text_eq(c.region.as_str(), self.server_region.as_str());
        if !same_region || !text_eq(c.service.as_str(), "s3") {
            let expected = scope_text(c.date.as_str(), self.server_region.as_str(), "s3");
            let received = scope_text(c.date.as_str(), c.region.as_str(), c.service.as_str());
            let e = AuthError::InvalidCredentialScope { expected, received };
            return req.refusal(e, c.access_key, None);
        }
        let token: Option<String> = match &req.security_token {
            Some(t) => Some(t.clone()),
            None => {
                let params = req.read_params();
                match find_param(&params, "X-Amz-Security-Token") {
                    Some(i) => Some(params[i].1.clone()),
                    None => None,
                }
            },
        };
        match token {
            Some(token) => {
                if self.sts_enabled {
                    AuthStep::Open { token, phase: AuthPhase::Session { credentials: c } }
                } else {
                    AuthStep::Refuse {
                        error: AuthError::InternalError {
                            reason: "STS is not enabled on this server".to_owned(),
                        },
                        note: None,
                    }
                }
            },
            None => AuthStep::LookUp {
                access_key: c.access_key.clone(),
                phase: AuthPhase::Secret { credentials: c },
            },
        }
    }

    fn check_key(
        &self,
        req: &AuthRequest,
        c: ParsedCredentials,
        role: Option<String>,
        secret: String,
    ) -> (r: AuthStep)
        ensures
            r@ == self@.with_key(req@, c@, role.deep_view(), secret@),
    {
        let payload = req.payload_text();
        if text_eq(payload.as_str(), "UNSIGNED-PAYLOAD") && !self.allow_unsigned_payload {
            return req.refusal_as(AuthError::MissingAuth, c.access_key, role, "AccessDenied");
        }
        let input = req.signing_input(&c.signed_headers);
        AuthStep::Verify { input, secret, phase: AuthPhase::Signature { credentials: c, role } }
    }

    fn check_session(
        &self,
        req: &AuthRequest,
        c: ParsedCredentials,
        opened: Result<SessionData, AuthError>,
        now: &Moment,
    ) -> (r: AuthStep)
        ensures
            r@ == self@.with_session(
                req@,
                c@,
                match opened {
                    Ok(d) => Ok((d.role_arn@, d.temp_secret_key@, d.expiration)),
                    Err(e) => Err(e@),
                },
                now@,
            ),
    {
        match opened {
            Err(e) => req.refusal(e, c.access_key, None),
            Ok(d) => {
                #[verifier::truncate]
                let secs: u64 = now.secs as u64;
                if d.expiration < secs {
                    req.refusal_as(
                        AuthError::ExpiredToken,
                        c.access_key,
                        Some(d.role_arn),
                        "ExpiredToken",
                    )
                } else {
                    self.check_key(req, c, Some(d.role_arn), d.temp_secret_key)
                }
            },
        }
    }

    fn check_verdict(
        &self,
        req: &AuthRequest,
        c: ParsedCredentials,
        role: Option<String>,
        verdict: Result<(), AuthError>,
    ) -> (r: AuthStep)
        ensures
            r@ == self@.with_verdict(
                req@,
                c@,
                role.deep_view(),
                match verdict {
                    Ok(_) => Ok(()),
                    Err(e) => Err(e@),
                },
            ),
    {
        if let Err(e) = verdict {
            return req.refusal(e, c.access_key, role);
        }
        match role {
            Some(r) => {
                if self.policies_enabled {
                    let (action, resource) = resolve_s3_action_and_resource(
                        req.method,
                        req.path.as_str(),
                        &req.query,
                    );
                    AuthStep::Ask {
                        role_arn: r.clone(),
                        action,
                        resource,
                        phase: AuthPhase::Policy { credentials: c, role_arn: r },
                    }
                } else {
                    AuthStep::Serve { user_id: c.access_key, role: Some(r) }
                }
            },
            None => AuthStep::Serve { user_id: c.access_key, role: None },
        }
    }

    /// What follows upon an answer to what the phase asked for.
    pub fn next(&self, req: &AuthRequest, phase: AuthPhase, event: AuthEvent, now: &Moment) -> (r:
        AuthStep)
        requires
            event@.answers(phase@),
        ensures
            r@ == self@.next(req@, phase@, event@, now@),
    {
        match phase {
            AuthPhase::Credentials => match event {
                AuthEvent::Credentials { read } => self.check_credentials(req, read, now),
                _ => AuthStep::Refuse { error: AuthError::MissingAuth, note: None },
            },
            AuthPhase::Session { credentials } => match event {
                AuthEvent::Session { opened } => self.check_session(req, credentials, opened, now),
                _ => AuthStep::Refuse { error: AuthError::MissingAuth, note: None },
            },
            AuthPhase::Secret { credentials } => match event {
                AuthEvent::Secret { key } => match key {
                    None => {
                        let e = AuthError::InvalidAccessKey {
                            access_key: credentials.access_key.clone(),
                        };
                        req.refusal(e, credentials.access_key, None)
                    },
                    Some(k) => self.check_key(req, credentials, None, k),
                },
                _ => AuthStep::Refuse { error: AuthError::MissingAuth, note: None },
            },
            AuthPhase::Signature { credentials, role } => match event {
                AuthEvent::Signature { verdict } => self.check_verdict(
                    req,
                    credentials,
                    role,
                    verdict,
                ),
                _ => AuthStep::Refuse { error: AuthError::MissingAuth, note: None },
            },
            AuthPhase::Policy { credentials, role_arn } => match event {
                AuthEvent::Policy { allowed } => {
                    if allowed {
                        AuthStep::Serve { user_id: credentials.access_key, role: Some(role_arn) }
                    } else {
                        req.refusal_as(
                            AuthError::MissingAuth,
                            credentials.access_key,
                            Some(role_arn),
                            "AccessDenied",
                        )
                    }
                },
                _ => AuthStep::Refuse { error: AuthError::MissingAuth, note: None },
            },
        }
    }
}

/// No request is served but by a valid signature: the last answer was that
/// the signature is valid and no policy had to be asked, or that the policies
/// allow the request; and the policies are asked only once the signature was
/// found valid.
pub proof fn law_served_means_signed(
    settings: SettingsView,
    req: AuthRequestView,
    phase: PhaseView,
    event: EventView,
    now: MomentView,
)
    requires
        event.answers(phase),
    ensures
        settings.next(req, phase, event, now) is Serve ==> {
            ||| phase is Signature && event->verdict is Ok && (!settings.policies_enabled
                || phase->Signature_role is None)
            ||| phase is Policy && event->allowed
        },
        settings.next(req, phase, event, now) is Ask ==> phase is Signature && event->verdict is Ok,
        settings.next(req, phase, event, now) matches StepView::Ask { phase: p, .. } ==> p
            is Policy,
        settings.next(req, phase, event, now) matches StepView::Open { phase: p, .. } ==> p
            is Session,
        settings.next(req, phase, event, now) matches StepView::LookUp { phase: p, .. } ==> p
            is Secret,
        settings.next(req, phase, event, now) matches StepView::Verify { phase: p, .. } ==> p
            is Signature,
        !(settings.next(req, phase, event, now) is Skip),
        !(settings.begin(req) is Serve),
        settings.begin(req) is Skip ==> !settings.auth_enabled || req.for_session(),
{
}

/// A session that has expired, credentials for another region or service, and
/// a body that is not signed where it has to be are refused, whatever follows.
pub proof fn law_refusals(
    settings: SettingsView,
    req: AuthRequestView,
    c: CredentialsView,
    role: Option<Seq<char>>,
    secret: Seq<char>,
    session: (Seq<char>, Seq<char>, u64),
    now: MomentView,
)
    ensures
        session.2 < now.secs as u64 ==> settings.with_session(req, c, Ok(session), now) is Refuse,
        c.region != settings.server_region ==> settings.with_credentials(req, Ok(c), now)
            is Refuse,
        c.service != "s3"@ ==> settings.with_credentials(req, Ok(c), now) is Refuse,
        req.payload_hash is None && !settings.allow_unsigned_payload ==> settings.with_key(
            req,
            c,
            role,
            secret,
        ) is Refuse,
{
}

} // verus!
