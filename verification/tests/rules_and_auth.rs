use rustmvc::ActionResult;
use rustmvc::Handler;
use rustmvc::HttpMethod;
use rustmvc::Middleware;
use rustmvc::MiddlewareDecision;
use rustmvc::RequestContext;
use rustmvc::RouteRules;
use rustmvc::Server;
use rustmvc::authentication::AuthConfig;
use rustmvc::authentication::AuthError;

pub struct TestView;

pub enum TestHandler {
    Greet,
}

impl Handler<TestView> for TestHandler {
    fn handle(&self, ctx: RequestContext) -> ActionResult<TestView> {
        match &ctx.user {
            Some(user) => ActionResult::Okay(format!("Hello, {}!", user.name)),
            None => ActionResult::Okay("Hello, anonymous!".to_string()),
        }
    }
}

pub enum NoMw {}

impl Middleware<TestView> for NoMw {
    fn on_request(&self, ctx: RequestContext) -> MiddlewareDecision<TestView> {
        MiddlewareDecision::Proceed(ctx)
    }

    fn on_response(&self, result: ActionResult<TestView>) -> ActionResult<TestView> {
        result
    }
}

fn ctx(path: &str, method: HttpMethod) -> RequestContext {
    RequestContext {
        params: Vec::new(),
        headers: Vec::new(),
        path: path.to_string(),
        path_params: Vec::new(),
        body: Vec::new(),
        method,
        rules: Vec::new(),
        user: None,
    }
}

fn secured_server(rules: Vec<RouteRules>) -> Server<TestHandler, NoMw> {
    let mut server: Server<TestHandler, NoMw> = Server::new();
    server.set_auth_config(AuthConfig::new("server-secret"));
    server.add_route("/", TestHandler::Greet, HttpMethod::GET, rules);
    server
}

#[test]
fn token_verifies_immediately_and_expires_later() {
    let auth = AuthConfig::new("s1");
    let token = auth.generate_token_at("alice", &vec!["user".to_string()], 60, 1000);
    let fresh = auth.validate_token_at(&token, 1000);
    assert!(fresh.is_ok());
    let claims = fresh.unwrap();
    assert_eq!(claims.sub, "alice");
    assert_eq!(claims.roles, vec!["user".to_string()]);
    assert_eq!(claims.exp, 1060);
    assert!(auth.validate_token_at(&token, 1060).is_ok());
    match auth.validate_token_at(&token, 1061) {
        Err(AuthError::Expired) => {},
        _ => panic!("expected Expired"),
    }
}

#[test]
fn token_with_other_secret_is_bad_signature() {
    let issuing = AuthConfig::new("secret-one");
    let verifying = AuthConfig::new("secret-two");
    let token = issuing.generate_token_at("alice", &vec![], 60, 1000);
    match verifying.validate_token_at(&token, 1000) {
        Err(AuthError::BadSignature) => {},
        _ => panic!("expected BadSignature"),
    }
}

#[test]
fn garbage_token_is_malformed() {
    let auth = AuthConfig::new("s1");
    match auth.validate_token_at("not a token", 0) {
        Err(AuthError::Malformed) => {},
        _ => panic!("expected Malformed"),
    }
}

#[test]
fn empty_subject_and_roles_round_trip() {
    let auth = AuthConfig::new("s1");
    let token = auth.generate_token_at("", &Vec::new(), 5, 0);
    let claims = auth.validate_token_at(&token, 3).unwrap();
    assert_eq!(claims.sub, "");
    assert!(claims.roles.is_empty());
}

#[test]
fn allow_anonymous_never_unauthorized() {
    let server = secured_server(vec![RouteRules::AllowAnonymous, RouteRules::Authorize]);
    let r = server.handle_request_at(ctx("/", HttpMethod::GET), 0);
    match r {
        ActionResult::Okay(m) => assert_eq!(m, "Hello, anonymous!"),
        _ => panic!("expected the handler to run"),
    }
}

#[test]
fn authorize_without_header_is_missing_token() {
    let server = secured_server(vec![RouteRules::Authorize]);
    let r = server.handle_request_at(ctx("/", HttpMethod::GET), 0);
    match r {
        ActionResult::UnAuthorized(m) => assert_eq!(m, "Missing token"),
        _ => panic!("expected UnAuthorized"),
    }
}

#[test]
fn authorize_with_malformed_bearer_is_invalid_token() {
    let server = secured_server(vec![RouteRules::Authorize]);
    let mut request = ctx("/", HttpMethod::GET);
    request.headers = vec![("Authorization".to_string(), "Bearer garbage".to_string())];
    let r = server.handle_request_at(request, 0);
    match r {
        ActionResult::UnAuthorized(m) => assert_eq!(m, "Invalid token"),
        _ => panic!("expected UnAuthorized"),
    }
}

#[test]
fn authorize_with_valid_bearer_greets_subject() {
    let server = secured_server(vec![RouteRules::Authorize]);
    let auth = AuthConfig::new("server-secret");
    let token = auth.generate_token_at("alice", &vec!["user".to_string()], 60, 1000);
    let mut request = ctx("/", HttpMethod::GET);
    request.headers = vec![(
        "authorization".to_string(),
        format!("Bearer {}", token),
    )];
    let r = server.handle_request_at(request, 1000);
    match r {
        ActionResult::Okay(m) => assert_eq!(m, "Hello, alice!"),
        _ => panic!("expected the handler to run"),
    }
}

#[test]
fn expired_bearer_is_invalid_token() {
    let server = secured_server(vec![RouteRules::Authorize]);
    let auth = AuthConfig::new("server-secret");
    let token = auth.generate_token_at("alice", &vec![], 60, 1000);
    let mut request = ctx("/", HttpMethod::GET);
    request.headers = vec![("Authorization".to_string(), format!("Bearer {}", token))];
    let r = server.handle_request_at(request, 2000);
    match r {
        ActionResult::UnAuthorized(m) => assert_eq!(m, "Invalid token"),
        _ => panic!("expected UnAuthorized"),
    }
}

#[test]
fn body_over_limit_is_payload_too_large_despite_auth() {
    let server = secured_server(vec![RouteRules::Authorize, RouteRules::RequestSizeLimit(10)]);
    let mut request = ctx("/", HttpMethod::GET);
    request.body = vec![0u8; 11];
    let r = server.handle_request_at(request, 0);
    match r {
        ActionResult::PayloadTooLarge(m) => {
            assert_eq!(m, "Request to route '/' exceeded the allowed size: 10 bytes");
        },
        _ => panic!("expected PayloadTooLarge"),
    }
}

#[test]
fn body_at_limit_passes() {
    let server = secured_server(vec![RouteRules::AllowAnonymous, RouteRules::RequestSizeLimit(
        10,
    )]);
    let mut request = ctx("/", HttpMethod::GET);
    request.body = vec![0u8; 10];
    let r = server.handle_request_at(request, 0);
    assert!(matches!(r, ActionResult::Okay(_)));
}

#[test]
fn role_requirement_needs_matching_role() {
    let server = secured_server(vec![
        RouteRules::Authorize,
        RouteRules::Roles(vec!["admin".to_string()]),
    ]);
    let auth = AuthConfig::new("server-secret");
    let plain = auth.generate_token_at("bob", &vec!["user".to_string()], 60, 0);
    let mut request = ctx("/", HttpMethod::GET);
    request.headers = vec![("Authorization".to_string(), format!("Bearer {}", plain))];
    match server.handle_request_at(request, 0) {
        ActionResult::Forbidden(m) => assert_eq!(m, "Insufficient role"),
        _ => panic!("expected Forbidden"),
    }
    let admin = auth.generate_token_at("root", &vec!["admin".to_string()], 60, 0);
    let mut granted = ctx("/", HttpMethod::GET);
    granted.headers = vec![("Authorization".to_string(), format!("Bearer {}", admin))];
    match server.handle_request_at(granted, 0) {
        ActionResult::Okay(m) => assert_eq!(m, "Hello, root!"),
        _ => panic!("expected the handler to run"),
    }
}

#[test]
fn authorize_without_config_is_rejected() {
    let mut server: Server<TestHandler, NoMw> = Server::new();
    server.add_route("/", TestHandler::Greet, HttpMethod::GET, vec![RouteRules::Authorize]);
    let r = server.handle_request_at(ctx("/", HttpMethod::GET), 0);
    match r {
        ActionResult::UnAuthorized(m) => assert_eq!(m, "No auth config"),
        _ => panic!("expected UnAuthorized"),
    }
}

#[test]
fn server_generate_token_requires_config() {
    let mut server: Server<TestHandler, NoMw> = Server::new();
    let claims = rustmvc::authentication::Claims {
        sub: "alice".to_string(),
        roles: vec!["user".to_string()],
        exp: 0,
    };
    assert!(server.generate_token(claims, 60).is_none());
    server.set_auth_config(AuthConfig::new("server-secret"));
    let claims = rustmvc::authentication::Claims {
        sub: "alice".to_string(),
        roles: vec!["user".to_string()],
        exp: 0,
    };
    let token = server.generate_token(claims, 60).unwrap();
    let auth = AuthConfig::new("server-secret");
    assert!(auth.validate_token(&token).is_ok());
}
