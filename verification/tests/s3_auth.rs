// Authentication, temporary credentials and the audit log.

use dfs::ids::new_id;
use dfs::s3::audit::{
    cleanup_at, cleanup_old_logs, flush_batch, make_record_key, make_user_key, make_user_prefix,
    read_key_time, AuditBuffer, AuditRecord,
};
use dfs::s3::audit_reader::{heading, print_record, time_bound, Search, Visit};
use dfs::s3::auth::{
    error_status, normalize_query, remote_ip, resolve_s3_action_and_resource, s3_error_response,
    AuthError,
};
use dfs::s3::auth_middleware::{
    auth_middleware, skewed, AuthEvent, AuthPhase, AuthRequest, AuthSettings, AuthStep, NoteCode,
    ParsedCredentials, SessionData,
};
use dfs::s3::objects::Method;
use dfs::s3::outside::{
    moment_millis, now, parse_moment, parse_query, read_rfc3339, seconds_text, Moment,
};
use dfs::s3::sts::{
    access_key_for, action_text, check_trust, expiration, finish, grant, Claims, handle_sts, internal_error, invalid_token,
    new_secret_key, respond, sts_error, StsQueryParams, StsSettings,
};
use dfs::words::{squeeze, to_lower, to_upper, trim, words_of};

fn settings() -> AuthSettings {
    AuthSettings {
        auth_enabled: true,
        require_tls: false,
        allow_unsigned_payload: false,
        server_region: "us-east-1".to_string(),
        sts_enabled: true,
        policies_enabled: true,
    }
}

fn request() -> AuthRequest {
    AuthRequest {
        method: Method::Get,
        method_text: "GET".to_string(),
        path: "/photos/a/b.jpg".to_string(),
        query: Some("b=2&a=1&a=0&&c".to_string()),
        https: false,
        forwarded_proto: None,
        security_token: None,
        payload_hash: Some("abc".to_string()),
        headers: vec![
            ("host".to_string(), "  example.com ".to_string()),
            ("x-amz-date".to_string(), "20260313T100000Z".to_string()),
            ("x-list".to_string(), "a   b".to_string()),
            ("x-list".to_string(), "c".to_string()),
        ],
    }
}

fn credentials() -> ParsedCredentials {
    ParsedCredentials {
        access_key: "AKIA1".to_string(),
        date: "20260313".to_string(),
        region: "us-east-1".to_string(),
        service: "s3".to_string(),
        timestamp: "20260313T100000Z".to_string(),
        signed_headers: vec!["X-List".to_string(), "Host".to_string()],
    }
}

fn moment(text: &str) -> Moment {
    parse_moment(text).unwrap()
}

fn at_ten() -> Moment {
    moment("2026-03-13T10:00:00+00:00")
}

fn read(settings: &AuthSettings, req: &AuthRequest, c: ParsedCredentials) -> AuthStep {
    settings.next(
        req,
        AuthPhase::Credentials,
        AuthEvent::Credentials { read: Ok(c) },
        &at_ten(),
    )
}

#[test]
fn authentication_can_be_switched_off() {
    let mut s = settings();
    s.auth_enabled = false;
    assert!(matches!(auth_middleware(&s, &request()), AuthStep::Skip));
    let mut r = request();
    r.query = Some("Action=AssumeRoleWithWebIdentity&Version=1".to_string());
    assert!(matches!(auth_middleware(&settings(), &r), AuthStep::Skip));
}

#[test]
fn plain_connections_are_refused_where_tls_is_required() {
    let mut s = settings();
    s.require_tls = true;
    let mut r = request();
    match auth_middleware(&s, &r) {
        AuthStep::Refuse { error: AuthError::InsecureTransport, note: Some(n) } => {
            assert_eq!(n.user_id, "anonymous");
            assert_eq!(n.status_code, 403);
            assert_eq!(n.action, "s3:GetObject");
            assert_eq!(n.resource, "arn:dfs:s3:::photos/a/b.jpg");
            assert!(matches!(n.code, NoteCode::Named { ref code } if code == "AccessDenied"));
        }
        other => panic!("Expected a refusal, got {:?}", other),
    }
    r.forwarded_proto = Some("https".to_string());
    assert!(matches!(auth_middleware(&s, &r), AuthStep::Read { .. }));
    r.forwarded_proto = None;
    r.https = true;
    match auth_middleware(&s, &r) {
        AuthStep::Read { params } => assert_eq!(
            params,
            vec![
                ("a".to_string(), "0".to_string()),
                ("b".to_string(), "2".to_string()),
                ("c".to_string(), "".to_string()),
            ]
        ),
        other => panic!("Expected to read the credentials, got {:?}", other),
    }
}

#[test]
fn a_signed_request_is_served() {
    let s = settings();
    let r = request();
    let (access_key, phase) = match read(&s, &r, credentials()) {
        AuthStep::LookUp { access_key, phase } => (access_key, phase),
        other => panic!("Expected a key to be looked up, got {:?}", other),
    };
    assert_eq!(access_key, "AKIA1");
    let step =
        s.next(&r, phase, AuthEvent::Secret { key: Some("secret".to_string()) }, &at_ten());
    let (input, secret, phase) = match step {
        AuthStep::Verify { input, secret, phase } => (input, secret, phase),
        other => panic!("Expected a signature to be verified, got {:?}", other),
    };
    assert_eq!(secret, "secret");
    assert_eq!(input.method, "GET");
    assert_eq!(input.path, "/photos/a/b.jpg");
    assert_eq!(input.query_string, "a=0&a=1&b=2&c=");
    assert_eq!(input.signed_headers_list, "host;x-list");
    assert_eq!(input.headers.get("host").unwrap(), "example.com");
    assert_eq!(input.headers.get("x-list").unwrap(), "a b,c");
    assert_eq!(input.headers.len(), 2);
    assert_eq!(input.payload_hash, "abc");
    match s.next(&r, phase, AuthEvent::Signature { verdict: Ok(()) }, &at_ten()) {
        AuthStep::Serve { user_id, role } => {
            assert_eq!(role, None);
            let note = r.served(user_id, role, 200);
            assert_eq!(note.user_id, "AKIA1");
            assert!(matches!(note.code, NoteCode::Nothing));
            let record = note.record(&at_ten(), "req", "127.0.0.1", &None, "");
            assert_eq!(record.timestamp, "2026-03-13T10:00:00+00:00");
            assert_eq!(record.timestamp_ms, 1773396000000);
            assert_eq!(record.error_code, None);
            assert_eq!(record.status_code, 200);
        }
        other => panic!("Expected the request to be served, got {:?}", other),
    }
}

#[test]
fn bad_credentials_are_refused() {
    let s = settings();
    let r = request();
    let missing = s.next(
        &r,
        AuthPhase::Credentials,
        AuthEvent::Credentials { read: Err(AuthError::MissingAuth) },
        &at_ten(),
    );
    match missing {
        AuthStep::Refuse { error: AuthError::MissingAuth, note: Some(n) } => {
            assert_eq!(n.user_id, "anonymous");
            assert!(matches!(n.code, NoteCode::OfError));
            let record = n.record(&at_ten(), "req", "ip", &None, "AccessDenied");
            assert_eq!(record.error_code, Some("AccessDenied".to_string()));
        }
        other => panic!("Expected a refusal, got {:?}", other),
    }
    let mut c = credentials();
    c.region = "eu".to_string();
    match read(&s, &r, c) {
        AuthStep::Refuse {
            error: AuthError::InvalidCredentialScope { expected, received },
            note: Some(n),
        } => {
            assert_eq!(expected, "20260313/us-east-1/s3/aws4_request");
            assert_eq!(received, "20260313/eu/s3/aws4_request");
            assert_eq!(n.status_code, 400);
        }
        other => panic!("Expected a refusal, got {:?}", other),
    }
    let mut c = credentials();
    c.timestamp = "2026-03-13T10:16:00Z".to_string();
    match read(&s, &r, c) {
        AuthStep::Refuse {
            error: AuthError::RequestTimeTooSkewed { server_time, request_time },
            ..
        } => {
            assert_eq!(server_time, "2026-03-13T10:00:00+00:00");
            assert_eq!(request_time, "2026-03-13T10:16:00+00:00");
        }
        other => panic!("Expected a refusal, got {:?}", other),
    }
    for (time, late) in [("20260313T094400Z", true), ("20260313T101559Z", false)] {
        let mut c = credentials();
        c.timestamp = time.to_string();
        let step = read(&s, &r, c);
        let refused = matches!(
            step,
            AuthStep::Refuse { error: AuthError::RequestTimeTooSkewed { .. }, .. }
        );
        assert_eq!(refused, late);
    }
    let mut c = credentials();
    c.timestamp = "2026-03-13T10:15:59.5Z".to_string();
    assert!(matches!(read(&s, &r, c), AuthStep::LookUp { .. }));

    let phase = AuthPhase::Secret { credentials: credentials() };
    match s.next(&r, phase, AuthEvent::Secret { key: None }, &at_ten()) {
        AuthStep::Refuse { error: AuthError::InvalidAccessKey { access_key }, note: Some(n) } => {
            assert_eq!(access_key, "AKIA1");
            assert_eq!(n.user_id, "AKIA1");
        }
        other => panic!("Expected a refusal, got {:?}", other),
    }
    let phase = AuthPhase::Signature { credentials: credentials(), role: None };
    let e = AuthError::SignatureDoesNotMatch {
        canonical_request: "c".to_string(),
        string_to_sign: "s".to_string(),
    };
    assert!(matches!(
        s.next(&r, phase, AuthEvent::Signature { verdict: Err(e) }, &at_ten()),
        AuthStep::Refuse { error: AuthError::SignatureDoesNotMatch { .. }, note: Some(_) }
    ));
}

#[test]
fn unsigned_bodies_are_refused_unless_allowed() {
    let mut s = settings();
    let mut r = request();
    r.payload_hash = None;
    let phase = || AuthPhase::Secret { credentials: credentials() };
    let key = || AuthEvent::Secret { key: Some("k".to_string()) };
    assert!(matches!(
        s.next(&r, phase(), key(), &at_ten()),
        AuthStep::Refuse { error: AuthError::MissingAuth, note: Some(_) }
    ));
    s.allow_unsigned_payload = true;
    match s.next(&r, phase(), key(), &at_ten()) {
        AuthStep::Verify { input, .. } => assert_eq!(input.payload_hash, "UNSIGNED-PAYLOAD"),
        other => panic!("Expected a signature to be verified, got {:?}", other),
    }
}

#[test]
fn sessions_are_checked_and_policies_asked() {
    let mut s = settings();
    let mut r = request();
    r.security_token = Some("tok".to_string());
    let phase = match read(&s, &r, credentials()) {
        AuthStep::Open { token, phase } => {
            assert_eq!(token, "tok");
            phase
        }
        other => panic!("Expected a token to be opened, got {:?}", other),
    };
    let session = |expiration: u64| AuthEvent::Session {
        opened: Ok(SessionData {
            role_arn: "arn:dfs:iam:::role/r".to_string(),
            temp_secret_key: "tmp".to_string(),
            expiration,
        }),
    };
    let ten = 1773396000;
    match s.next(&r, phase, session(ten), &at_ten()) {
        AuthStep::Verify { secret, phase, .. } => {
            assert_eq!(secret, "tmp");
            match s.next(&r, phase, AuthEvent::Signature { verdict: Ok(()) }, &at_ten()) {
                AuthStep::Ask { role_arn, action, resource, phase } => {
                    assert_eq!(role_arn, "arn:dfs:iam:::role/r");
                    assert_eq!(action, "s3:GetObject");
                    assert_eq!(resource, "arn:dfs:s3:::photos/a/b.jpg");
                    let denied =
                        s.next(&r, phase, AuthEvent::Policy { allowed: false }, &at_ten());
                    assert!(matches!(
                        denied,
                        AuthStep::Refuse { error: AuthError::MissingAuth, note: Some(_) }
                    ));
                }
                other => panic!("Expected the policies to be asked, got {:?}", other),
            }
        }
        other => panic!("Expected a signature to be verified, got {:?}", other),
    }
    let phase = AuthPhase::Policy {
        credentials: credentials(),
        role_arn: "arn:dfs:iam:::role/r".to_string(),
    };
    assert!(matches!(
        s.next(&r, phase, AuthEvent::Policy { allowed: true }, &at_ten()),
        AuthStep::Serve { role: Some(_), .. }
    ));
    let phase = AuthPhase::Session { credentials: credentials() };
    match s.next(&r, phase, session(ten - 1), &at_ten()) {
        AuthStep::Refuse { error: AuthError::ExpiredToken, note: Some(n) } => {
            assert_eq!(n.role_arn, Some("arn:dfs:iam:::role/r".to_string()));
            assert!(matches!(n.code, NoteCode::Named { ref code } if code == "ExpiredToken"));
        }
        other => panic!("Expected a refusal, got {:?}", other),
    }
    let phase = AuthPhase::Session { credentials: credentials() };
    let damaged = AuthEvent::Session {
        opened: Err(AuthError::InvalidToken { reason: "x".to_string() }),
    };
    assert!(matches!(
        s.next(&r, phase, damaged, &at_ten()),
        AuthStep::Refuse { error: AuthError::InvalidToken { .. }, note: Some(_) }
    ));
    s.sts_enabled = false;
    match read(&s, &r, credentials()) {
        AuthStep::Refuse { error: AuthError::InternalError { reason }, note: None } => {
            assert_eq!(reason, "STS is not enabled on this server")
        }
        other => panic!("Expected a refusal, got {:?}", other),
    }
    let mut by_query = request();
    by_query.query = Some("X-Amz-Security-Token=t%20k".to_string());
    match read(&settings(), &by_query, credentials()) {
        AuthStep::Open { token, .. } => assert_eq!(token, "t k"),
        other => panic!("Expected a token to be opened, got {:?}", other),
    }
}

#[test]
fn answers_to_refused_requests() {
    let (status, body) = s3_error_response(&AuthError::MissingAuth, "AccessDenied", "Denied");
    assert_eq!(status, 403);
    assert_eq!(
        body,
        "<?xml version=\"1.0\" encoding=\"UTF-8\"?>\n<Error>\n  <Code>AccessDenied</Code>\n  <Message>Denied</Message>\n  <Resource>/</Resource>\n</Error>"
    );
    assert_eq!(error_status(&AuthError::InternalError { reason: String::new() }), 500);
    assert_eq!(error_status(&AuthError::ExpiredToken), 403);
}

#[test]
fn addresses_of_requests() {
    let some = |s: &str| Some(s.to_string());
    assert_eq!(remote_ip(&some("10.0.0.1"), &some("1.1.1.1"), &None), "10.0.0.1");
    assert_eq!(remote_ip(&None, &some(" 1.1.1.1 "), &some("2.2.2.2")), "1.1.1.1");
    assert_eq!(remote_ip(&None, &None, &some(" 2.2.2.2 , 3.3.3.3")), "2.2.2.2");
    assert_eq!(remote_ip(&None, &None, &None), "unknown");
}

#[test]
fn actions_and_resources() {
    let of = |m: Method, path: &str, q: &str| {
        resolve_s3_action_and_resource(m, path, &Some(q.to_string()))
    };
    assert_eq!(of(Method::Get, "/", ""), ("s3:ListAllMyBuckets".to_string(), "arn:dfs:s3:::*".to_string()));
    assert_eq!(of(Method::Get, "/b", "acl").0, "s3:GetBucketAcl");
    assert_eq!(of(Method::Get, "/b", "location=").0, "s3:GetBucketLocation");
    assert_eq!(of(Method::Get, "/b", ""), ("s3:ListBucket".to_string(), "arn:dfs:s3:::b".to_string()));
    assert_eq!(of(Method::Put, "/b//k", "tagging").0, "s3:PutObjectTagging");
    assert_eq!(of(Method::Put, "/b//k", "").1, "arn:dfs:s3:::b/k");
    assert_eq!(of(Method::Delete, "/b", "policy").0, "s3:DeleteBucketPolicy");
    assert_eq!(of(Method::Head, "/b/k", "").0, "s3:HeadObject");
    assert_eq!(of(Method::Post, "/b/k", "uploads").0, "s3:PutObject");
    assert_eq!(of(Method::Post, "/b/k", "").0, "s3:Unknown");
    assert_eq!(of(Method::Other, "/b/k", ""), ("s3:Unknown".to_string(), "arn:dfs:s3:::*".to_string()));
    assert_eq!(resolve_s3_action_and_resource(Method::Put, "/", &None).0, "s3:Unknown");
}

#[test]
fn query_strings() {
    assert_eq!(normalize_query("z=1&a=2&a=1&&k"), "a=1&a=2&k=&z=1");
    assert_eq!(normalize_query(""), "");
    assert_eq!(normalize_query("a=b=c"), "a=b=c");
    assert_eq!(
        parse_query("b=x%20y&a=1"),
        vec![("a".to_string(), "1".to_string()), ("b".to_string(), "x y".to_string())]
    );
}

#[test]
fn moments() {
    let m = moment("2026-03-13T12:00:00.250+02:00");
    assert_eq!(m.secs, 1773396000);
    assert_eq!(moment_millis(&m), 1773396000250);
    let basic = parse_moment("20260313T100000Z").unwrap();
    assert_eq!((basic.secs, basic.nanos), (1773396000, 0));
    assert_eq!(basic.text, "2026-03-13T10:00:00+00:00");
    assert!(read_rfc3339("20260313T100000Z").is_none());
    assert!(parse_moment("nonsense").is_none());
    assert_eq!(seconds_text(1773396000), Some("2026-03-13T10:00:00Z".to_string()));
    assert_eq!(seconds_text(i64::MAX), None);
    assert_eq!(seconds_text(8210266876799).is_some(), true);
    assert_eq!(seconds_text(8210266876800), None);
    let t = now();
    assert!(t.secs > 0);
    let again = parse_moment(&t.text).unwrap();
    assert_eq!((again.secs, again.nanos), (t.secs, t.nanos));
    assert_eq!(again.text, t.text);
    assert!(t.text.ends_with("+00:00"));
    assert!(!skewed(&moment("2026-03-13T10:15:00Z"), &at_ten()));
    assert!(skewed(&moment("2026-03-13T09:44:00Z"), &at_ten()));
}

#[test]
fn letter_case_and_white_space() {
    assert_eq!(to_lower("X-Amz-Date"), "x-amz-date");
    assert_eq!(to_upper("asia0f"), "ASIA0F");
    assert_eq!(trim(" \t a b \n"), "a b");
    assert_eq!(words_of(" a\t b  c "), vec!["a", "b", "c"]);
    assert_eq!(squeeze("  a   b "), "a b");
}

fn sts_params() -> StsQueryParams {
    StsQueryParams {
        action: Some("AssumeRoleWithWebIdentity".to_string()),
        duration_seconds: None,
        role_arn: Some("arn:dfs:iam:::role/reader".to_string()),
        role_session_name: None,
        web_identity_token: Some("jwt".to_string()),
    }
}

#[test]
fn requests_for_temporary_credentials_are_checked() {
    let on = StsSettings { oidc_enabled: true, sts_enabled: true, iam_enabled: true };
    let ok = handle_sts(on, &sts_params()).unwrap();
    assert_eq!(ok.token, "jwt");
    assert_eq!(ok.role_arn, "arn:dfs:iam:::role/reader");
    let mut p = sts_params();
    p.action = None;
    let f = handle_sts(on, &p).unwrap_err();
    assert_eq!((f.status, f.code.as_str(), f.label.as_str()), (400, "InvalidAction", "invalid_action"));
    assert_eq!(f.message, None);
    assert_eq!(action_text(&p), "Unknown");
    let f = handle_sts(StsSettings { oidc_enabled: false, ..on }, &sts_params()).unwrap_err();
    assert_eq!((f.status, f.code.as_str()), (500, "OIDC_NOT_ENABLED"));
    let f = handle_sts(StsSettings { sts_enabled: false, ..on }, &sts_params()).unwrap_err();
    assert_eq!((f.status, f.code.as_str()), (500, "STS_NOT_ENABLED"));
    let f = handle_sts(StsSettings { iam_enabled: false, ..on }, &sts_params()).unwrap_err();
    assert_eq!((f.status, f.code.as_str()), (500, "IAM_NOT_ENABLED"));
    let mut p = sts_params();
    p.web_identity_token = None;
    assert_eq!(handle_sts(on, &p).unwrap_err().code, "MissingToken");
    let mut p = sts_params();
    p.role_arn = None;
    assert_eq!(handle_sts(on, &p).unwrap_err().code, "MissingRole");
    assert_eq!(invalid_token("r", "bad").code, "InvalidIdentityToken");
    assert!(check_trust("r", "sub", true).is_none());
    let f = check_trust("r", "sub", false).unwrap();
    assert_eq!((f.status, f.user_id.as_str()), (403, "sub"));
    assert_eq!(internal_error("r", "sub", None).status, 500);
    assert_eq!(
        sts_error("C", "M"),
        "<ErrorResponse><Error><Code>C</Code><Message>M</Message></Error><RequestId></RequestId></ErrorResponse>"
    );
}

#[test]
fn temporary_credentials_are_made() {
    let secret = new_secret_key();
    assert_eq!(secret.len(), 40);
    assert!(secret.chars().all(|c| c.is_ascii_alphanumeric()));
    assert_ne!(secret, new_secret_key());
    let made = access_key_for("0123abcd-ef01-2345-6789-0123456789ab");
    assert_eq!(made.strip_prefix("ASIA"), Some("0123ABCDEF012345"));
    let key = access_key_for(&new_id());
    assert_eq!(key.len(), 20);
    assert!(key.starts_with("ASIA"));
    let mut p = sts_params();
    assert_eq!(expiration(&p, 100), Some(3700));
    p.duration_seconds = Some(u64::MAX);
    assert_eq!(expiration(&p, 100), None);
    p.role_session_name = Some("me".to_string());
    let r = respond(
        &p,
        "arn:dfs:iam:::role/reader",
        "sub-1",
        key.clone(),
        secret.clone(),
        "token".to_string(),
        1773396000,
    );
    let c = &r.result.credentials;
    assert_eq!(c.access_key_id, key);
    assert_eq!(c.secret_access_key, secret);
    assert_eq!(c.session_token, "token");
    assert_eq!(c.expiration, "2026-03-13T10:00:00Z");
    assert_eq!(r.result.subject_from_web_identity_token, "sub-1");
    assert_eq!(r.result.assumed_role_user.assumed_role_id, "reader:me");
    assert_eq!(r.result.assumed_role_user.arn, "arn:dfs:sts:::assumed-role/reader/me");
}

fn make_record(timestamp: &str, request_id: &str, user_id: &str) -> AuditRecord {
    let ts_ms = parse_moment(timestamp).map(|m| moment_millis(&m)).unwrap_or(0);
    AuditRecord {
        timestamp: timestamp.to_string(),
        timestamp_ms: ts_ms,
        request_id: request_id.to_string(),
        remote_ip: "127.0.0.1".to_string(),
        user_id: user_id.to_string(),
        role_arn: None,
        action: "s3:GetObject".to_string(),
        resource: "arn:dfs:s3:::test-bucket/key".to_string(),
        status_code: 200,
        error_code: None,
        user_agent: Some("test-agent".to_string()),
        duration_ms: Some(10),
    }
}

#[test]
fn test_secondary_index_lookup() {
    let records = vec![
        make_record("2026-03-13T10:00:00+00:00", "req1", "user-a"),
        make_record("2026-03-13T11:00:00+00:00", "req2", "user-b"),
        make_record("2026-03-13T12:00:00+00:00", "req3", "user-a"),
    ];
    let keys = flush_batch(&records);

    // What a sorted store holds after the batch was written
    let mut primary = std::collections::BTreeMap::new();
    let mut index = std::collections::BTreeMap::new();
    for (record, k) in records.iter().zip(keys.into_iter()) {
        primary.insert(k.record.clone(), record);
        index.insert(k.user, k.record);
    }

    // Search for user-a
    let prefix = make_user_prefix("user-a");
    assert_eq!(prefix, b"index:user:user-a:".to_vec());
    let mut found = Vec::new();
    for (key, primary_key) in index.range(prefix.clone()..) {
        if !key.starts_with(&prefix) {
            break;
        }
        found.push(primary[primary_key].request_id.clone());
    }
    assert_eq!(found, vec!["req1", "req3"]);
}

#[test]
fn audit_keys_order_by_time() {
    let early = make_record_key(255, "zzz");
    let late = make_record_key(256, "aaa");
    assert!(early < late);
    assert_eq!(early, [b"audit:".to_vec(), vec![0, 0, 0, 0, 0, 0, 0, 255], b":zzz".to_vec()].concat());
    let id = "0123abcd-ef01-2345-6789-0123456789ab";
    let key = make_user_key("u", 77, id);
    assert_eq!(read_key_time(&key), Some(77));
    assert_eq!(read_key_time(&b"short".to_vec()), None);
}

#[test]
fn audit_records_are_written_in_batches() {
    let mut b = AuditBuffer::new(2);
    assert!(b.tick().is_none());
    assert!(b.receive(make_record("", "a", "u")).is_none());
    let batch = b.receive(make_record("", "b", "u")).unwrap();
    assert_eq!(batch.len(), 2);
    assert!(b.receive(make_record("", "c", "u")).is_none());
    assert_eq!(b.tick().unwrap()[0].request_id, "c");
    assert!(b.receive(make_record("", "d", "u")).is_none());
    let last = b.close(vec![make_record("", "e", "u")]).unwrap();
    let ids: Vec<&str> = last.iter().map(|r| r.request_id.as_str()).collect();
    assert_eq!(ids, vec!["d", "e"]);
    assert!(b.close(vec![]).is_none());
}

#[test]
fn old_audit_records_are_cleaned_up() {
    let id = "0123abcd-ef01-2345-6789-0123456789ab";
    let day = 86_400_000;
    let ten = 1773396000000;
    let keys = vec![
        make_user_key("u", ten - day - 1, id),
        make_user_key("u", ten - day, id),
        b"index:user:short".to_vec(),
    ];
    let c = cleanup_at(&at_ten(), 1, &keys).unwrap();
    assert_eq!(c.keys, vec![keys[0].clone()]);
    assert_eq!(c.from, b"audit:".to_vec());
    assert!(make_record_key(ten - day - 1, "x") < c.to);
    assert!(make_record_key(ten - day, "x") >= c.to);
    assert!(cleanup_at(&at_ten(), u32::MAX, &keys).is_none());
    assert!(cleanup_old_logs(30, &keys).is_some());
}

fn search() -> Search {
    Search { user: None, action: None, status: None, start_ms: 0, end_ms: u64::MAX, limit: 100 }
}

#[test]
fn audit_records_are_searched() {
    let r = make_record("2026-03-13T10:00:00+00:00", "req1", "user-a");
    let mut s = search();
    assert!(s.filter_record(&r));
    assert_eq!(s.start_key(), [b"audit:".to_vec(), vec![0; 8]].concat());
    s.action = Some("s3:PutObject".to_string());
    assert!(!s.filter_record(&r));
    s.action = None;
    s.status = Some(404);
    assert!(!s.filter_record(&r));
    s.status = Some(200);
    s.user = Some("user-b".to_string());
    assert!(!s.filter_record(&r));
    s.user = Some("user-a".to_string());
    assert!(s.filter_record(&r));
    assert_eq!(s.start_key(), b"index:user:user-a:".to_vec());
    let id = "0123abcd-ef01-2345-6789-0123456789ab";
    s.end_ms = 50;
    assert_eq!(s.visit(&make_user_key("user-a", 50, id)), Visit::Look);
    assert_eq!(s.visit(&make_user_key("user-a", 51, id)), Visit::Stop);
    assert_eq!(s.visit(&make_user_key("user-b", 1, id)), Visit::Stop);
    assert_eq!(s.visit(&b"index:user:user-a:x".to_vec()), Visit::Malformed);
    let mut s = search();
    s.limit = 1;
    assert_eq!(s.visit(&make_record_key(1, "x")), Visit::Look);
    let shown = s.look(0, &Some(make_record("2026-03-13T10:00:00+00:00", "a", "u")));
    assert!(shown.show && shown.stop && shown.count == 1);
    s.end_ms = 5;
    let shown = s.look(0, &Some(make_record("2026-03-13T10:00:00+00:00", "a", "u")));
    assert!(!shown.show && shown.stop && shown.count == 0);
    assert_eq!(time_bound(&Some("2026-03-13T10:00:00Z".to_string()), 0), Some(1773396000000));
    assert_eq!(time_bound(&None, 9), Some(9));
    assert_eq!(time_bound(&Some("soon".to_string()), 0), None);
}

#[test]
fn audit_records_are_shown() {
    let mut r = make_record("2026-03-13T10:00:00+00:00", "req1", "user-a");
    assert_eq!(
        print_record(&r),
        format!(
            "{:<25} {:<15} {:<15} {:<20} {:<10} {:<10}",
            "2026-03-13T10:00:00+00:00", "user-a", "s3:GetObject", "test-bucket/key", 200, "10ms"
        )
    );
    r.role_arn = Some("arn:dfs:iam:::role/reader".to_string());
    r.duration_ms = None;
    assert_eq!(
        print_record(&r),
        format!(
            "{:<25} {:<15} {:<15} {:<20} {:<10} {:<10}",
            "2026-03-13T10:00:00+00:00", "role/reader", "s3:GetObject", "test-bucket/key", 200, "-"
        )
    );
    assert_eq!(
        heading(),
        format!(
            "{:<25} {:<15} {:<15} {:<20} {:<10} {:<10}",
            "Timestamp", "User", "Action", "Resource", "Status", "Duration"
        )
    );
}

#[test]
fn sessions_are_granted_to_the_trusted() {
    let id = "0123abcd-ef01-2345-6789-0123456789ab";
    let claims = || Claims { sub: "sub-1".to_string(), text: "{}".to_string() };
    let role = || "arn:dfs:iam:::role/reader".to_string();
    let p = sts_params();
    let f = grant(&p, role(), claims(), false, 100, id, "s".to_string()).unwrap_err();
    assert_eq!((f.status, f.code.as_str()), (403, "AccessDenied"));
    assert_eq!(f.user_id, "sub-1");
    let f = grant(&p, role(), claims(), true, u64::MAX, id, "s".to_string()).unwrap_err();
    assert_eq!((f.status, f.code.as_str(), f.message), (500, "InternalError", None));

    let g = grant(&p, role(), claims(), true, 1773392400, id, "s".to_string()).unwrap();
    assert_eq!(g.session.role_arn, role());
    assert_eq!(g.session.temp_secret_key, "s");
    assert_eq!(g.session.expiration, 1773396000);
    assert_eq!(g.claims.text, "{}");
    let r = finish(&p, g, Ok("token".to_string())).unwrap().result;
    assert_eq!(r.credentials.secret_access_key, "s");
    assert_eq!(r.credentials.session_token, "token");
    assert_eq!(r.credentials.expiration, "2026-03-13T10:00:00Z");
    assert_eq!(r.credentials.access_key_id, access_key_for(id));
    assert_eq!(r.subject_from_web_identity_token, "sub-1");

    let g = grant(&p, role(), claims(), true, 100, id, "s".to_string()).unwrap();
    let f = finish(&p, g, Err("no key".to_string())).unwrap_err();
    assert_eq!((f.status, f.message), (500, Some("no key".to_string())));
}
