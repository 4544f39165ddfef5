use solid_server::auth::{
    access_mode_for_method, authz_response, credentials_or_anonymous, extract_credentials,
    requested_access, AccessMap, AccessMode, AccessRequest, AuthzResponse, Credentials,
    PassThroughAuthorizer, PassThroughPermissionReader, ResourceIdentifier,
};

#[test]
fn bearer_token_becomes_agent() {
    let c = extract_credentials(Some("Bearer abc.def"));
    assert_eq!(c.agent.as_deref(), Some("abc.def"));
    assert!(c.issuer.is_none());
}

#[test]
fn missing_or_other_authorization_is_anonymous() {
    let c = extract_credentials(None);
    assert!(c.agent.is_none() && c.issuer.is_none());
    let c = extract_credentials(Some("Basic dXNlcjpwdw=="));
    assert!(c.agent.is_none() && c.issuer.is_none());
    let c = extract_credentials(Some("bearer lower"));
    assert!(c.agent.is_none());
    let c = extract_credentials(Some("Bearer"));
    assert!(c.agent.is_none());
}

#[test]
fn empty_bearer_token_is_kept() {
    let c = extract_credentials(Some("Bearer "));
    assert_eq!(c.agent.as_deref(), Some(""));
}

#[test]
fn missing_credentials_fall_back_to_anonymous() {
    let c = credentials_or_anonymous(None);
    assert!(c.agent.is_none() && c.issuer.is_none());
    let found = Credentials { agent: Some("me".to_string()), issuer: Some("idp".to_string()) };
    let c = credentials_or_anonymous(Some(found));
    assert_eq!(c.agent.as_deref(), Some("me"));
    assert_eq!(c.issuer.as_deref(), Some("idp"));
}

#[test]
fn methods_map_to_access_modes() {
    for m in ["GET", "HEAD", "OPTIONS", "TRACE", "get", ""] {
        assert_eq!(access_mode_for_method(m), AccessMode::Read, "{m}");
    }
    for m in ["PUT", "POST", "PATCH", "DELETE"] {
        assert_eq!(access_mode_for_method(m), AccessMode::Write, "{m}");
    }
}

#[test]
fn requested_access_holds_one_entry() {
    let a = requested_access("/doc.ttl", "DELETE");
    assert_eq!(a.requests.len(), 1);
    assert_eq!(a.requests[0].resource.path, "/doc.ttl");
    assert_eq!(a.requests[0].modes, vec![AccessMode::Write]);
}

#[test]
fn pass_through_reader_grants_everything_requested() {
    let reader = PassThroughPermissionReader;
    let anon = extract_credentials(None);
    let requested = AccessMap {
        requests: vec![
            AccessRequest {
                resource: ResourceIdentifier { path: "/a".to_string() },
                modes: vec![AccessMode::Read, AccessMode::Write],
            },
            AccessRequest {
                resource: ResourceIdentifier { path: "/b".to_string() },
                modes: vec![AccessMode::Read],
            },
        ],
    };
    let map = reader.read(&anon, &requested).expect("never fails");
    assert_eq!(map.grants.len(), 2);
    assert_eq!(map.grants[0].resource.path, "/a");
    assert_eq!(map.grants[0].permissions, vec![(AccessMode::Read, true), (AccessMode::Write, true)]);
    assert_eq!(map.grants[1].resource.path, "/b");
    assert_eq!(map.grants[1].permissions, vec![(AccessMode::Read, true)]);
}

#[test]
fn pass_through_pipeline_lets_requests_proceed() {
    let anon = extract_credentials(None);
    let requested = requested_access("/x", "PUT");
    let available = PassThroughPermissionReader.read(&anon, &requested).unwrap();
    let verdict = PassThroughAuthorizer.authorize(&anon, &requested, &available);
    assert!(verdict.is_ok());
    let r = authz_response(false, verdict.err().as_deref());
    assert!(matches!(r, AuthzResponse::Proceed));
    assert_eq!(r.status(), None);
}

#[test]
fn reader_failure_answers_500() {
    let r = authz_response(true, None);
    assert!(matches!(r, AuthzResponse::InternalServerError));
    assert_eq!(r.status(), Some(500));
    let r = authz_response(true, Some("ignored"));
    assert_eq!(r.status(), Some(500));
}

#[test]
fn denial_answers_401_with_reason() {
    let r = authz_response(false, Some("no access to /x"));
    assert_eq!(r.status(), Some(401));
    match r {
        AuthzResponse::Unauthorized { www_authenticate, wac_allow, body } => {
            assert_eq!(www_authenticate, "Bearer");
            assert_eq!(wac_allow, "user=\"\",public=\"\"");
            assert_eq!(body, "401 Unauthorized: no access to /x");
        }
        _ => panic!("expected 401"),
    }
}
