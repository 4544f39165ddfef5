//! Credentials and the access-control decisions of the request pipeline.
//!
//! Every request passes credential extraction, then a permission reader that
//! answers, for each requested resource, which access modes are granted,
//! then an authorizer that accepts or refuses the request.

use vstd::prelude::*;
use vstd::string::*;

verus! {

// ── credentials ──────────────────────────────────────────────────────────
/// Who is making a request: the agent's WebID or bearer token, and its
/// issuer. Both are absent for an anonymous request.
#[derive(Clone, Debug)]
pub struct Credentials {
    pub agent: Option<String>,
    pub issuer: Option<String>,
}

/// The prefix of a bearer `Authorization` header value.
pub open spec fn bearer_prefix() -> Seq<char> {
    seq!['B', 'e', 'a', 'r', 'e', 'r', ' ']
}

/// The token carried by an `Authorization` header value, if it is a bearer
/// header.
pub open spec fn bearer_token(header: Seq<char>) -> Option<Seq<char>> {
    if header.len() >= bearer_prefix().len() && header.take(bearer_prefix().len() as int)
        == bearer_prefix() {
        Some(header.skip(bearer_prefix().len() as int))
    } else {
        None
    }
}

/// The view of an optional string.
pub open spec fn opt_view(s: Option<String>) -> Option<Seq<char>> {
    match s {
        Some(v) => Some(v@),
        None => None,
    }
}

/// Extract a `Credentials` value from the text of a request's
/// `Authorization` header (absent when the request has none, or when its
/// value is not visible ASCII text).
///
/// Supports `Authorization: Bearer <token>` only: the token becomes the
/// agent. Any other request is anonymous (no agent, no issuer).
pub fn extract_credentials(authorization: Option<&str>) -> (c: Credentials)
    ensures
        c.issuer is None,
        opt_view(c.agent) == match authorization {
            Some(h) => bearer_token(h@),
            None => None,
        },
{
    match authorization {
        Some(h) => {
            let n = h.unicode_len();
            let prefix = String::from_str("Bearer ");
            proof {
                reveal_strlit("Bearer ");
                assert(prefix@ =~= bearer_prefix());
            }
            if n >= 7 && h.substring_char(0, 7).to_owned() == prefix {
                let token = h.substring_char(7, n).to_owned();
                assert(token@ =~= h@.skip(7));
                Credentials { agent: Some(token), issuer: None }
            } else {
                Credentials { agent: None, issuer: None }
            }
        },
        None => Credentials { agent: None, issuer: None },
    }
}

/// The credentials found on a request, or anonymous ones when none are.
pub fn credentials_or_anonymous(found: Option<Credentials>) -> (c: Credentials)
    ensures
        match found {
            Some(f) => c == f,
            None => c.agent is None && c.issuer is None,
        },
{
    match found {
        Some(c) => c,
        None => Credentials { agent: None, issuer: None },
    }
}

// ── access modes ─────────────────────────────────────────────────────────
/// A mode of access to a resource.
#[derive(Clone, Copy, Debug, PartialEq, Eq, Structural, Hash)]
pub enum AccessMode {
    Read,
    Write,
}

/// The access mode an HTTP method asks for: writing for `PUT`, `POST`,
/// `PATCH` and `DELETE`, reading for `GET`, `HEAD`, `OPTIONS` and any other
/// method.
pub open spec fn mode_for_method(method: Seq<char>) -> AccessMode {
    if method == "PUT"@ || method == "POST"@ || method == "PATCH"@ || method == "DELETE"@ {
        AccessMode::Write
    } else {
        AccessMode::Read
    }
}

/// Map an HTTP method to the access mode it requests.
pub fn access_mode_for_method(method: &str) -> (mode: AccessMode)
    ensures
        mode == mode_for_method(method@),
{
    let m = method.to_owned();
    if m == String::from_str("PUT") || m == String::from_str("POST") || m == String::from_str(
        "PATCH",
    ) || m == String::from_str("DELETE") {
        AccessMode::Write
    } else {
        AccessMode::Read
    }
}

/// Identifies a resource by its path.
#[derive(Clone, Debug)]
pub struct ResourceIdentifier {
    pub path: String,
}

/// The access modes requested on one resource.
#[derive(Clone, Debug)]
pub struct AccessRequest {
    pub resource: ResourceIdentifier,
    pub modes: Vec<AccessMode>,
}

/// The access requested by an operation, resource by resource.
#[derive(Clone, Debug)]
pub struct AccessMap {
    pub requests: Vec<AccessRequest>,
}

/// Requested modes by resource path; a later request on the same resource
/// replaces an earlier one.
pub open spec fn access_view(requests: Seq<AccessRequest>) -> Map<Seq<char>, Set<AccessMode>>
    decreases requests.len(),
{
    if requests.len() == 0 {
        Map::empty()
    } else {
        access_view(requests.drop_last()).insert(
            requests.last().resource.path@,
            requests.last().modes@.to_set(),
        )
    }
}

impl View for AccessMap {
    type V = Map<Seq<char>, Set<AccessMode>>;

    open spec fn view(&self) -> Map<Seq<char>, Set<AccessMode>> {
        access_view(self.requests@)
    }
}

/// Whether each access mode is granted on one resource.
#[derive(Clone, Debug)]
pub struct PermissionGrant {
    pub resource: ResourceIdentifier,
    pub permissions: Vec<(AccessMode, bool)>,
}

/// The permissions available to an agent, resource by resource.
#[derive(Clone, Debug)]
pub struct PermissionMap {
    pub grants: Vec<PermissionGrant>,
}

/// Mode permissions as a map; a later pair for the same mode replaces an
/// earlier one.
pub open spec fn mode_view(perms: Seq<(AccessMode, bool)>) -> Map<AccessMode, bool>
    decreases perms.len(),
{
    if perms.len() == 0 {
        Map::empty()
    } else {
        mode_view(perms.drop_last()).insert(perms.last().0, perms.last().1)
    }
}

/// Permissions by resource path; a later grant on the same resource
/// replaces an earlier one.
pub open spec fn permission_view(grants: Seq<PermissionGrant>) -> Map<Seq<char>, Map<AccessMode, bool>>
    decreases grants.len(),
{
    if grants.len() == 0 {
        Map::empty()
    } else {
        permission_view(grants.drop_last()).insert(
            grants.last().resource.path@,
            mode_view(grants.last().permissions@),
        )
    }
}

impl View for PermissionMap {
    type V = Map<Seq<char>, Map<AccessMode, bool>>;

    open spec fn view(&self) -> Map<Seq<char>, Map<AccessMode, bool>> {
        permission_view(self.grants@)
    }
}

/// Every requested mode granted on every requested resource, and nothing
/// else.
pub open spec fn all_granted(requested: Map<Seq<char>, Set<AccessMode>>) -> Map<
    Seq<char>,
    Map<AccessMode, bool>,
> {
    Map::new(
        |r: Seq<char>| requested.contains_key(r),
        |r: Seq<char>| Map::new(|m: AccessMode| requested[r].contains(m), |m: AccessMode| true),
    )
}

/// The access an HTTP request asks for: its method's mode on its path.
pub fn requested_access(path: &str, method: &str) -> (a: AccessMap)
    ensures
        a@ == map![path@ => set![mode_for_method(method@)]],
{
    let mode = access_mode_for_method(method);
    let mut modes: Vec<AccessMode> = Vec::new();
    modes.push(mode);
    let mut requests: Vec<AccessRequest> = Vec::new();
    requests.push(AccessRequest { resource: ResourceIdentifier { path: path.to_owned() }, modes });
    let a = AccessMap { requests };
    assert(a.requests@.drop_last() =~= Seq::<AccessRequest>::empty());
    assert(a.requests@.last().modes@.to_set() =~= set![mode]) by {
        assert(a.requests@.last().modes@ =~= seq![mode]);
        assert forall|m: AccessMode| a.requests@.last().modes@.to_set().contains(m) <==> m == mode by {
            if m == mode {
                assert(a.requests@.last().modes@[0] == m);
            }
        }
    }
    assert(access_view(a.requests@.drop_last()) == Map::<Seq<char>, Set<AccessMode>>::empty());
    assert(a.requests@.last().resource.path@ == path@);
    assert(a@ == access_view(a.requests@.drop_last()).insert(
        a.requests@.last().resource.path@,
        a.requests@.last().modes@.to_set(),
    ));
    assert(a@ =~= map![path@ => set![mode_for_method(method@)]]);
    a
}

// ── pass-through implementations ─────────────────────────────────────────
/// An authorizer that permits every request.
/// Used as the default so that requests pass without credentials.
#[derive(Debug)]
pub struct PassThroughAuthorizer;

impl PassThroughAuthorizer {
    /// Accepts any request.
    pub fn authorize(
        &self,
        credentials: &Credentials,
        requested_modes: &AccessMap,
        available_permissions: &PermissionMap,
    ) -> (r: Result<(), String>)
        ensures
            r is Ok,
    {
        Ok(())
    }
}

/// A permission reader that reports all modes as permitted.
#[derive(Debug)]
pub struct PassThroughPermissionReader;

/// `anyhow::Error`, the error a permission reader fails with; carried
/// through unopened.
#[verifier::external_type_specification]
#[verifier::external_body]
pub struct ExAnyhowError(anyhow::Error);

proof fn lemma_all_granted_insert(
    requested: Map<Seq<char>, Set<AccessMode>>,
    r: Seq<char>,
    modes: Set<AccessMode>,
)
    ensures
        all_granted(requested.insert(r, modes)) == all_granted(requested).insert(
            r,
            Map::new(|m: AccessMode| modes.contains(m), |m: AccessMode| true),
        ),
{
    assert(all_granted(requested.insert(r, modes)) =~= all_granted(requested).insert(
        r,
        Map::new(|m: AccessMode| modes.contains(m), |m: AccessMode| true),
    ));
}

/// Grants every mode of `modes`.
fn grant_all(modes: &Vec<AccessMode>) -> (perms: Vec<(AccessMode, bool)>)
    ensures
        mode_view(perms@) == Map::new(|m: AccessMode| modes@.to_set().contains(m), |m: AccessMode| true),
{
    let mut perms: Vec<(AccessMode, bool)> = Vec::new();
    for i in 0..modes.len()
        invariant
            perms.len() == i,
            mode_view(perms@) == Map::new(
                |m: AccessMode| modes@.take(i as int).to_set().contains(m),
                |m: AccessMode| true,
            ),
    {
        let ghost prev = perms@;
        perms.push((modes[i], true));
        assert(perms@.drop_last() =~= prev);
        assert(modes@.take(i + 1).to_set() =~= modes@.take(i as int).to_set().insert(modes@[i as int])) by {
            let a = modes@.take(i as int);
            let b = modes@.take(i + 1);
            assert forall|m: AccessMode| b.contains(m) <==> (a.contains(m) || m == modes@[i as int]) by {
                if b.contains(m) {
                    let j = choose|j: int| 0 <= j < b.len() && b[j] == m;
                    if j < i {
                        assert(a[j] == m);
                    }
                }
                if a.contains(m) {
                    let j = choose|j: int| 0 <= j < a.len() && a[j] == m;
                    assert(b[j] == m);
                }
                if m == modes@[i as int] {
                    assert(b[i as int] == m);
                }
            }
        }
        assert(mode_view(perms@) =~= Map::new(
            |m: AccessMode| modes@.take(i + 1).to_set().contains(m),
            |m: AccessMode| true,
        ));
    }
    assert(modes@.take(modes.len() as int) =~= modes@);
    perms
}

impl PassThroughPermissionReader {
    /// Reports every requested mode as permitted on every requested
    /// resource.
    pub fn read(&self, credentials: &Credentials, requested_modes: &AccessMap) -> (r: Result<
        PermissionMap,
        anyhow::Error,
    >)
        ensures
            r matches Ok(map) && map@ == all_granted(requested_modes@),
    {
        let mut grants: Vec<PermissionGrant> = Vec::new();
        let reqs = &requested_modes.requests;
        for i in 0..reqs.len()
            invariant
                reqs == &requested_modes.requests,
                grants.len() == i,
                permission_view(grants@) == all_granted(access_view(reqs@.take(i as int))),
        {
            let ghost prev = grants@;
            let perms = grant_all(&reqs[i].modes);
            let path = reqs[i].resource.path.clone();
            grants.push(PermissionGrant { resource: ResourceIdentifier { path }, permissions: perms });
            assert(grants@.drop_last() =~= prev);
            assert(reqs@.take(i + 1).drop_last() =~= reqs@.take(i as int));
            proof {
                lemma_all_granted_insert(
                    access_view(reqs@.take(i as int)),
                    reqs@[i as int].resource.path@,
                    reqs@[i as int].modes@.to_set(),
                );
            }
        }
        assert(reqs@.take(reqs.len() as int) =~= reqs@);
        Ok(PermissionMap { grants })
    }
}

// ── authorization outcome ────────────────────────────────────────────────
/// What the access-control layer does with a request.
#[derive(Debug)]
pub enum AuthzResponse {
    /// Hand the request on to the resource handlers.
    Proceed,
    /// Answer `500 Internal Server Error`: permissions could not be read.
    InternalServerError,
    /// Answer `401 Unauthorized` with a `WWW-Authenticate` header, a
    /// `WAC-Allow` header and a body.
    Unauthorized { www_authenticate: String, wac_allow: String, body: String },
}

/// The `WAC-Allow` value of a `401` answer: neither the requesting agent
/// nor the public is granted any access mode.
pub open spec fn no_access_wac_allow() -> Seq<char> {
    "user=\"\",public=\"\""@
}

/// The body of a `401` answer to a request refused with `reason`.
pub open spec fn unauthorized_body(reason: Seq<char>) -> Seq<char> {
    "401 Unauthorized: "@ + reason
}

/// Decide the answer to a request: `read_failed` tells that the permission
/// reader failed (the authorizer then is not asked), and `denial` holds the
/// authorizer's reason when it refused the request.
pub fn authz_response(read_failed: bool, denial: Option<&str>) -> (r: AuthzResponse)
    ensures
        read_failed ==> r is InternalServerError,
        !read_failed ==> match denial {
            None => r is Proceed,
            Some(e) => r matches AuthzResponse::Unauthorized { www_authenticate, wac_allow, body }
                && www_authenticate@ == "Bearer"@ && wac_allow@ == no_access_wac_allow() && body@
                == unauthorized_body(e@),
        },
{
    if read_failed {
        return AuthzResponse::InternalServerError;
    }
    match denial {
        None => AuthzResponse::Proceed,
        Some(e) => {
            let mut body = String::from_str("401 Unauthorized: ");
            body.append(e);
            AuthzResponse::Unauthorized {
                www_authenticate: String::from_str("Bearer"),
                wac_allow: String::from_str("user=\"\",public=\"\""),
                body,
            }
        },
    }
}

impl AuthzResponse {
    /// The HTTP status of the answer, `None` when the request proceeds.
    pub fn status(&self) -> (s: Option<u16>)
        ensures
            s == match self {
                AuthzResponse::Proceed => None,
                AuthzResponse::InternalServerError => Some(500u16),
                AuthzResponse::Unauthorized { .. } => Some(401u16),
            },
    {
        match self {
            AuthzResponse::Proceed => None,
            AuthzResponse::InternalServerError => Some(500),
            AuthzResponse::Unauthorized { .. } => Some(401),
        }
    }
}

// ── laws ─────────────────────────────────────────────────────────────────
/// The pass-through reader grants every requested mode on every requested
/// resource, and reports nothing that was not requested.
pub proof fn law_pass_through_grants_requested(
    requested: Map<Seq<char>, Set<AccessMode>>,
    r: Seq<char>,
    m: AccessMode,
)
    ensures
        requested.contains_key(r) && requested[r].contains(m) ==> all_granted(requested).contains_key(r)
            && all_granted(requested)[r].contains_key(m) && all_granted(requested)[r][m],
        all_granted(requested).contains_key(r) ==> requested.contains_key(r),
        all_granted(requested).contains_key(r) && all_granted(requested)[r].contains_key(m)
            ==> requested[r].contains(m),
{
}


/// The agent of a bearer header is the whole text after `Bearer `, for
/// every token, and a header without that prefix gives no agent: a bearer
/// token and its header determine each other.
pub proof fn law_bearer_token_is_rest_of_header(token: Seq<char>, header: Seq<char>)
    ensures
        bearer_token(seq!['B', 'e', 'a', 'r', 'e', 'r', ' '] + token) == Some(token),
        !(header.len() >= 7 && header.take(7) == seq!['B', 'e', 'a', 'r', 'e', 'r', ' '])
            ==> bearer_token(header) is None,
        bearer_token(header) matches Some(t) ==> header == seq!['B', 'e', 'a', 'r', 'e', 'r', ' ']
            + t,
{
    let h = seq!['B', 'e', 'a', 'r', 'e', 'r', ' '] + token;
    assert(h.take(7) =~= bearer_prefix());
    assert(h.skip(7) =~= token);
    if bearer_token(header) is Some {
        assert(header =~= bearer_prefix() + header.skip(7));
    }
}

/// The methods that change a resource (`PUT`, `POST`, `PATCH`, `DELETE`)
/// ask for write access; every other method asks for read access.
pub proof fn law_method_modes(method: Seq<char>)
    ensures
        mode_for_method(method) == AccessMode::Write <==> (method == seq!['P', 'U', 'T'] || method
            == seq!['P', 'O', 'S', 'T'] || method == seq!['P', 'A', 'T', 'C', 'H'] || method == seq![
            'D',
            'E',
            'L',
            'E',
            'T',
            'E',
        ]),
        mode_for_method(method) != AccessMode::Write ==> mode_for_method(method) == AccessMode::Read,
{
    reveal_strlit("PUT");
    reveal_strlit("POST");
    reveal_strlit("PATCH");
    reveal_strlit("DELETE");
    assert("PUT"@ =~= seq!['P', 'U', 'T']);
    assert("POST"@ =~= seq!['P', 'O', 'S', 'T']);
    assert("PATCH"@ =~= seq!['P', 'A', 'T', 'C', 'H']);
    assert("DELETE"@ =~= seq!['D', 'E', 'L', 'E', 'T', 'E']);
}

/// The body of a refusal names the refusal's reason whole, after the
/// status text `401 Unauthorized: `.
pub proof fn law_unauthorized_body_names_reason(reason: Seq<char>)
    ensures
        unauthorized_body(reason).len() == 18 + reason.len(),
        unauthorized_body(reason).skip(18) == reason,
        unauthorized_body(reason).take(18) == seq![
            '4', '0', '1', ' ', 'U', 'n', 'a', 'u', 't', 'h', 'o', 'r', 'i', 'z', 'e', 'd', ':', ' ',
        ],
{
    reveal_strlit("401 Unauthorized: ");
    assert(unauthorized_body(reason).skip(18) =~= reason);
    assert(unauthorized_body(reason).take(18) =~= seq![
        '4', '0', '1', ' ', 'U', 'n', 'a', 'u', 't', 'h', 'o', 'r', 'i', 'z', 'e', 'd', ':', ' ',
    ]);
}

} // verus!
