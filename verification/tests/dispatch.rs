use rustmvc::ActionResult;
use rustmvc::Handler;
use rustmvc::HttpMethod;
use rustmvc::Middleware;
use rustmvc::MiddlewareDecision;
use rustmvc::RequestContext;
use rustmvc::RouteRules;
use rustmvc::Server;
use rustmvc::authentication::AuthConfig;
use rustmvc::context::param_get;

/// The view-model type of these tests; nothing is ever rendered.
pub struct TestView;

pub enum TestHandler {
    Home,
    Hello,
    Echo,
    Login,
    Named,
}

impl Handler<TestView> for TestHandler {
    fn handle(&self, ctx: RequestContext) -> ActionResult<TestView> {
        match self {
            TestHandler::Home => match &ctx.user {
                Some(user) => ActionResult::Okay(format!("Hello, {}!", user.name)),
                None => ActionResult::Okay("Hello, anonymous!".to_string()),
            },
            TestHandler::Hello => ActionResult::Okay("first".to_string()),
            TestHandler::Echo => {
                let mut seen: Vec<String> = Vec::new();
                for (k, v) in &ctx.params {
                    if k == "trace" {
                        seen.push(v.clone());
                    }
                }
                ActionResult::Okay(format!("H[{}]", seen.join(",")))
            },
            TestHandler::Login => {
                let auth = AuthConfig::new("login-secret");
                let username = param_get(&ctx.params, "username");
                let password = param_get(&ctx.params, "password");
                match (username, password) {
                    (Some(u), Some(p)) => {
                        if u == "user1" && p == "12345678" {
                            let token = auth.generate_token(&u, vec!["user".to_string()], 60);
                            ActionResult::Okay(token)
                        } else {
                            ActionResult::BadRequest("username and password not valid".to_string())
                        }
                    },
                    (None, Some(_)) => ActionResult::BadRequest("username field required".to_string()),
                    (Some(_), None) => ActionResult::BadRequest("password field required".to_string()),
                    (None, None) => {
                        ActionResult::BadRequest("username and password fields required".to_string())
                    },
                }
            },
            TestHandler::Named => {
                let name = param_get(&ctx.path_params, "name");
                match name {
                    Some(n) => ActionResult::Okay(format!("Hello {}", n)),
                    None => ActionResult::Okay("Hello anonymous".to_string()),
                }
            },
        }
    }
}

pub enum TraceMw {
    A,
    B,
    Short,
}

impl Middleware<TestView> for TraceMw {
    fn on_request(&self, mut ctx: RequestContext) -> MiddlewareDecision<TestView> {
        match self {
            TraceMw::A => {
                ctx.params.push(("trace".to_string(), "A".to_string()));
                MiddlewareDecision::Proceed(ctx)
            },
            TraceMw::B => {
                ctx.params.push(("trace".to_string(), "B".to_string()));
                MiddlewareDecision::Proceed(ctx)
            },
            TraceMw::Short => MiddlewareDecision::ShortCircuit(ActionResult::Okay(
                "short".to_string(),
            )),
        }
    }

    fn on_response(&self, result: ActionResult<TestView>) -> ActionResult<TestView> {
        let tag = match self {
            TraceMw::A => "A",
            TraceMw::B => "B",
            TraceMw::Short => return result,
        };
        match result {
            ActionResult::Okay(s) => ActionResult::Okay(format!("{}({})", tag, s)),
            other => other,
        }
    }
}

fn ctx(path: &str, method: HttpMethod) -> RequestContext {
    RequestContext {
        params: Vec::new(),
        headers: Vec::new(),
        path: path.to_string(),
        path_params: Vec::new(),
        body: Vec::new(),
        method,
        rules: Vec::new(),
        user: None,
    }
}

fn okay_text(r: &ActionResult<TestView>) -> &str {
    match r {
        ActionResult::Okay(s) => s.as_str(),
        _ => panic!("expected an Okay response"),
    }
}

#[test]
fn match_exact_path_and_method() {
    let mut server: Server<TestHandler, TraceMw> = Server::new();
    server.add_route("/", TestHandler::Home, HttpMethod::GET, vec![RouteRules::AllowAnonymous]);
    let r = server.handle_request_at(ctx("/", HttpMethod::GET), 0);
    assert_eq!(okay_text(&r), "Hello, anonymous!");
}

#[test]
fn unmatched_path_is_not_found() {
    let mut server: Server<TestHandler, TraceMw> = Server::new();
    server.add_route("/", TestHandler::Home, HttpMethod::GET, vec![]);
    let r = server.handle_request_at(ctx("/missing", HttpMethod::GET), 0);
    assert!(matches!(r, ActionResult::NotFound));
}

#[test]
fn unmatched_method_is_not_found() {
    let mut server: Server<TestHandler, TraceMw> = Server::new();
    server.add_route("/", TestHandler::Home, HttpMethod::GET, vec![]);
    let r = server.handle_request_at(ctx("/", HttpMethod::POST), 0);
    assert!(matches!(r, ActionResult::NotFound));
}

#[test]
fn unsupported_method_is_not_found() {
    let mut server: Server<TestHandler, TraceMw> = Server::new();
    server.add_route("/", TestHandler::Home, HttpMethod::NotSupported, vec![]);
    let r = server.handle_request_at(ctx("/", HttpMethod::NotSupported), 0);
    assert!(matches!(r, ActionResult::NotFound));
}

#[test]
fn first_registration_wins() {
    let mut server: Server<TestHandler, TraceMw> = Server::new();
    server.add_route("/dup", TestHandler::Hello, HttpMethod::GET, vec![]);
    server.add_route("/dup", TestHandler::Home, HttpMethod::GET, vec![]);
    let r = server.handle_request_at(ctx("/dup", HttpMethod::GET), 0);
    assert_eq!(okay_text(&r), "first");
}

#[test]
fn placeholder_captures_segment() {
    let mut server: Server<TestHandler, TraceMw> = Server::new();
    server.add_route("/say_hello/{name}", TestHandler::Named, HttpMethod::GET, vec![]);
    let r = server.handle_request_at(ctx("/say_hello/world", HttpMethod::GET), 0);
    assert_eq!(okay_text(&r), "Hello world");
    let miss = server.handle_request_at(ctx("/say_hello/a/b", HttpMethod::GET), 0);
    assert!(matches!(miss, ActionResult::NotFound));
}

#[test]
fn middleware_order_wraps_handler() {
    let mut server: Server<TestHandler, TraceMw> = Server::new();
    server.add_middleware(TraceMw::A);
    server.add_middleware(TraceMw::B);
    server.add_route("/", TestHandler::Echo, HttpMethod::GET, vec![]);
    let r = server.handle_request_at(ctx("/", HttpMethod::GET), 0);
    assert_eq!(okay_text(&r), "A(B(H[A,B]))");
}

#[test]
fn middleware_short_circuit_skips_rest() {
    let mut server: Server<TestHandler, TraceMw> = Server::new();
    server.add_middleware(TraceMw::Short);
    server.add_middleware(TraceMw::B);
    server.add_route("/", TestHandler::Echo, HttpMethod::GET, vec![]);
    let r = server.handle_request_at(ctx("/", HttpMethod::GET), 0);
    assert_eq!(okay_text(&r), "short");
}

#[test]
fn outer_middleware_sees_short_circuit_response() {
    let mut server: Server<TestHandler, TraceMw> = Server::new();
    server.add_middleware(TraceMw::A);
    server.add_middleware(TraceMw::Short);
    server.add_route("/", TestHandler::Echo, HttpMethod::GET, vec![]);
    let r = server.handle_request_at(ctx("/", HttpMethod::GET), 0);
    assert_eq!(okay_text(&r), "A(short)");
}

#[test]
fn login_with_valid_credentials_returns_token() {
    let mut server: Server<TestHandler, TraceMw> = Server::new();
    server.add_route(
        "/login",
        TestHandler::Login,
        HttpMethod::POST,
        vec![RouteRules::AllowAnonymous],
    );
    let mut request = ctx("/login", HttpMethod::POST);
    request.params = vec![
        ("username".to_string(), "user1".to_string()),
        ("password".to_string(), "12345678".to_string()),
    ];
    let r = server.handle_request_at(request, 0);
    assert!(!okay_text(&r).is_empty());
}

#[test]
fn login_without_password_is_bad_request() {
    let mut server: Server<TestHandler, TraceMw> = Server::new();
    server.add_route(
        "/login",
        TestHandler::Login,
        HttpMethod::POST,
        vec![RouteRules::AllowAnonymous],
    );
    let mut request = ctx("/login", HttpMethod::POST);
    request.params = vec![("username".to_string(), "user1".to_string())];
    let r = server.handle_request_at(request, 0);
    match r {
        ActionResult::BadRequest(m) => assert_eq!(m, "password field required"),
        _ => panic!("expected BadRequest"),
    }
}
