//! A minimal web-application dispatch layer: a registry of routes bound to
//! handlers, a chain of middlewares wrapped around every dispatched
//! request, and declarative per-route rules — authorization, anonymous
//! access, payload size limits — evaluated before a handler runs.
//!
//! The dispatch engine is the heart of the crate: route matching by path
//! and method, rule evaluation with token-based authentication, and
//! middleware composition with explicit ordering and short-circuit
//! semantics.  Transport, template rendering and static-file serving are
//! external collaborators reached through the [`ActionResult`] values the
//! dispatcher returns.

use vstd::prelude::*;

pub mod authentication;
pub mod context;
pub mod routing;
pub mod textenc;

use crate::authentication::AuthConfig;
use crate::authentication::Claims;
use crate::authentication::ClaimsView;
use crate::authentication::expiry_at;
use crate::authentication::token_of;
use crate::authentication::verify_model;
use crate::context::GateOutcome;
use crate::context::RejectionView;
use crate::context::User;
use crate::context::UserView;
use crate::context::bearer_token;
use crate::context::header_lookup;
use crate::context::header_get;
use crate::context::bearer_of;
use crate::routing::route_matches;
use crate::routing::match_path;
use crate::textenc::dec_str;
use crate::textenc::append_decimal;
use vstd::pervasive::unreached;
use vstd::string::StrSliceExecFns;
use vstd::string::StringExecFns;

verus! {

/// The HTTP methods a route can be registered for, with an explicit
/// variant for methods the transport does not recognise.
#[derive(Clone, Copy, PartialEq, Eq, Structural, Debug)]
pub enum HttpMethod {
    GET,
    POST,
    PUT,
    DELETE,
    PATCH,
    OPTIONS,
    HEAD,
    TRACE,
    CONNECT,
    NotSupported,
}

/// A declarative precondition gating handler execution.
#[derive(Clone, PartialEq, Eq, Debug)]
pub enum RouteRules {
    /// The request must carry a valid bearer token.
    Authorize,
    /// Authentication is skipped entirely, even beside `Authorize`.
    AllowAnonymous,
    /// The authenticated identity must hold at least one of these roles.
    Roles(Vec<String>),
    /// The request body may not exceed this many bytes.
    RequestSizeLimit(usize),
}

/// The mathematical content of one rule.
pub enum RuleModel {
    Authorize,
    AllowAnonymous,
    Roles(Seq<Seq<char>>),
    SizeLimit(int),
}

/// The mathematical content of one rule value.
pub open spec fn rule_model(r: RouteRules) -> RuleModel {
    match r {
        RouteRules::Authorize => RuleModel::Authorize,
        RouteRules::AllowAnonymous => RuleModel::AllowAnonymous,
        RouteRules::Roles(v) => RuleModel::Roles(v.deep_view()),
        RouteRules::RequestSizeLimit(l) => RuleModel::SizeLimit(l as int),
    }
}

/// The mathematical content of a rule list.
pub open spec fn rules_model(rs: Seq<RouteRules>) -> Seq<RuleModel> {
    rs.map_values(|r: RouteRules| rule_model(r))
}

/// Contains information about an incoming HTTP request.  Immutable after
/// construction but for what a middleware chooses to replace on the copy
/// it passes forward.
pub struct RequestContext {
    /// Query parameters from the URL, as `key=value` pairs in order.
    pub params: Vec<(String, String)>,
    /// HTTP headers of the request, name/value pairs in arrival order.
    pub headers: Vec<(String, String)>,
    /// The path of the request (e.g. `/about`).
    pub path: String,
    /// The values captured by the matched pattern's named placeholders.
    pub path_params: Vec<(String, String)>,
    /// Request body bytes.
    pub body: Vec<u8>,
    /// HTTP method.
    pub method: HttpMethod,
    /// Rules that are set for the matched route.
    pub rules: Vec<RouteRules>,
    /// The authenticated identity, if the rules established one.
    pub user: Option<User>,
}

/// Represents the possible responses an action can return.  `V` is the
/// application's view-model type, rendered by the transport through
/// [`RenderModel`].
pub enum ActionResult<V> {
    /// HTML content as a raw string.
    Html(String),
    /// Render a model implementing `RenderModel`.
    View(V),
    /// Redirect to another URL.
    Redirect(String),
    /// Return a static file, served by the transport from its static root.
    File(String),
    /// 404 Not Found.
    NotFound,
    /// 413 Payload Too Large.
    PayloadTooLarge(String),
    /// 401 Unauthorized.
    UnAuthorized(String),
    /// 403 Forbidden.
    Forbidden(String),
    /// 200 OK with a plain body.
    Okay(String),
    /// 400 Bad Request.
    BadRequest(String),
}

/// Trait implemented by models that can render themselves to HTML; the
/// transport invokes it for [`ActionResult::View`] responses.
pub trait RenderModel {
    /// Render the model into an HTML string, or report why it cannot be.
    fn render_html(&self) -> Result<String, String>;
}

/// A controller handler: produces the response for a dispatched request.
pub trait Handler<V> {
    fn handle(&self, ctx: RequestContext) -> ActionResult<V>;
}

/// What a middleware decides on seeing a request: pass a (possibly
/// replaced) context on to the rest of the chain, or answer immediately
/// without invoking it.
pub enum MiddlewareDecision<V> {
    Proceed(RequestContext),
    ShortCircuit(ActionResult<V>),
}

/// A cross-cutting wrapper around the gated handler call.  Middlewares
/// begin executing in registration order; each sees the request before
/// everything registered after it, and sees the response after them.
pub trait Middleware<V> {
    /// Runs before the rest of the chain; may short-circuit.
    fn on_request(&self, ctx: RequestContext) -> MiddlewareDecision<V>;

    /// Runs after the rest of the chain, on the response it produced.
    fn on_response(&self, result: ActionResult<V>) -> ActionResult<V>;
}

/// Runs the middlewares from `i` on, innermost the handler itself:
/// middleware `i` begins first, everything after it runs inside it, and
/// a short-circuit at `i` keeps all later middlewares and the handler
/// from running at all.
pub fn run_chain<V, H: Handler<V>, M: Middleware<V>>(
    middlewares: &Vec<M>,
    handler: &H,
    ctx: RequestContext,
    i: usize,
) -> ActionResult<V>
    requires
        i <= middlewares@.len(),
    decreases middlewares@.len() - i,
{
    if i == middlewares.len() {
        handler.handle(ctx)
    } else {
        match middlewares[i].on_request(ctx) {
            MiddlewareDecision::Proceed(forwarded) => {
                let inner = run_chain(middlewares, handler, forwarded, i + 1);
                middlewares[i].on_response(inner)
            },
            MiddlewareDecision::ShortCircuit(r) => r,
        }
    }
}

/// The limit of the first body-size rule the body exceeds, if any.
pub open spec fn first_size_violation(rules: Seq<RuleModel>, body_len: int) -> Option<int>
    decreases rules.len(),
{
    if rules.len() == 0 {
        None
    } else {
        match rules[0] {
            RuleModel::SizeLimit(l) => if body_len > l {
                Some(l)
            } else {
                first_size_violation(rules.drop_first(), body_len)
            },
            _ => first_size_violation(rules.drop_first(), body_len),
        }
    }
}

/// Whether the rules grant anonymous access.
pub open spec fn has_allow_anonymous(rules: Seq<RuleModel>) -> bool {
    exists|k: int| 0 <= k < rules.len() && rules[k] is AllowAnonymous
}

/// Whether the rules require authentication.
pub open spec fn has_authorize(rules: Seq<RuleModel>) -> bool {
    exists|k: int| 0 <= k < rules.len() && rules[k] is Authorize
}

/// The role set of the first role-requirement rule, if any.
pub open spec fn required_roles(rules: Seq<RuleModel>) -> Option<Seq<Seq<char>>>
    decreases rules.len(),
{
    if rules.len() == 0 {
        None
    } else {
        match rules[0] {
            RuleModel::Roles(req) => Some(req),
            _ => required_roles(rules.drop_first()),
        }
    }
}

/// Whether two role sets share at least one role.
pub open spec fn roles_intersect(a: Seq<Seq<char>>, b: Seq<Seq<char>>) -> bool {
    exists|i: int, j: int| 0 <= i < a.len() && 0 <= j < b.len() && a[i] == b[j]
}

/// The diagnostic message of a payload-size rejection; it names the
/// route's pattern and the limit that was exceeded.
pub open spec fn size_message(route_path: Seq<char>, limit: int) -> Seq<char> {
    "Request to route '"@ + route_path + "' exceeded the allowed size: "@ + dec_str(limit)
        + " bytes"@
}

/// What authentication establishes for a request, before roles are
/// checked: the identity, or the rejection that ends the request.
/// `AllowAnonymous` skips authentication entirely, even beside
/// `Authorize`; authentication failures are collapsed to one generic
/// message so that verification internals do not leak.
pub open spec fn auth_outcome(
    rules: Seq<RuleModel>,
    headers: Seq<(Seq<char>, Seq<char>)>,
    secret: Option<Seq<char>>,
    now: int,
) -> Result<Option<UserView>, RejectionView> {
    if has_allow_anonymous(rules) {
        Ok(None)
    } else if has_authorize(rules) {
        match secret {
            None => Err(RejectionView::Unauthorized("No auth config"@)),
            Some(sec) => match header_lookup(headers, "Authorization"@) {
                None => Err(RejectionView::Unauthorized("Missing token"@)),
                Some(v) => match verify_model(bearer_token(v), sec, now) {
                    Err(_) => Err(RejectionView::Unauthorized("Invalid token"@)),
                    Ok(c) => Ok(Some(UserView { name: c.sub, roles: c.roles })),
                },
            },
        }
    } else {
        Ok(None)
    }
}

/// What the rules decide for a request, evaluated in this order: the
/// body-size limits (unconditional, regardless of the authentication
/// outcome), then authentication, then roles.  A role requirement with no
/// authenticated identity — in particular beside `AllowAnonymous` — is
/// rejected as `Forbidden`: a role cannot be shown anonymously.
pub open spec fn gate_of(
    rules: Seq<RuleModel>,
    headers: Seq<(Seq<char>, Seq<char>)>,
    body_len: int,
    route_path: Seq<char>,
    secret: Option<Seq<char>>,
    now: int,
) -> GateOutcome {
    match first_size_violation(rules, body_len) {
        Some(l) => GateOutcome::Reject(RejectionView::PayloadTooLarge(size_message(route_path, l))),
        None => match auth_outcome(rules, headers, secret, now) {
            Err(rej) => GateOutcome::Reject(rej),
            Ok(ident) => match required_roles(rules) {
                None => GateOutcome::Pass(ident),
                Some(req) => match ident {
                    None => GateOutcome::Reject(RejectionView::Forbidden("Insufficient role"@)),
                    Some(u) => if roles_intersect(u.roles, req) {
                        GateOutcome::Pass(ident)
                    } else {
                        GateOutcome::Reject(RejectionView::Forbidden("Insufficient role"@))
                    },
                },
            },
        },
    }
}

/// Whether a terminal response is the one a rule rejection calls for.
pub open spec fn action_matches_rejection<V>(a: ActionResult<V>, rej: RejectionView) -> bool {
    match rej {
        RejectionView::Unauthorized(m) => a matches ActionResult::UnAuthorized(s) && s@ == m,
        RejectionView::Forbidden(m) => a matches ActionResult::Forbidden(s) && s@ == m,
        RejectionView::PayloadTooLarge(m) => a matches ActionResult::PayloadTooLarge(s) && s@
            == m,
    }
}

/// The identity view of an optional user value.
pub open spec fn opt_user_view(u: Option<User>) -> Option<UserView> {
    match u {
        None => None,
        Some(x) => Some(x@),
    }
}

/// The secret held by an optional authentication configuration.
pub open spec fn secret_of(auth: Option<AuthConfig>) -> Option<Seq<char>> {
    match auth {
        None => None,
        Some(c) => Some(c.secret@),
    }
}

/// Scans for `AllowAnonymous`.
fn scan_allow_anonymous(rules: &Vec<RouteRules>) -> (r: bool)
    ensures
        r == has_allow_anonymous(rules_model(rules@)),
{
    let ghost m = rules_model(rules@);
    let mut k: usize = 0;
    while k < rules.len()
        invariant
            k <= rules.len(),
            m == rules_model(rules@),
            m.len() == rules.len(),
            forall|p: int| 0 <= p < k ==> !(m[p] is AllowAnonymous),
        decreases rules.len() - k,
    {
        proof {
            assert(m[k as int] == rule_model(rules@[k as int]));
        }
        if let RouteRules::AllowAnonymous = &rules[k] {
            assert(m[k as int] is AllowAnonymous);
            return true;
        }
        k = k + 1;
    }
    false
}

/// Scans for `Authorize`.
fn scan_authorize(rules: &Vec<RouteRules>) -> (r: bool)
    ensures
        r == has_authorize(rules_model(rules@)),
{
    let ghost m = rules_model(rules@);
    let mut k: usize = 0;
    while k < rules.len()
        invariant
            k <= rules.len(),
            m == rules_model(rules@),
            m.len() == rules.len(),
            forall|p: int| 0 <= p < k ==> !(m[p] is Authorize),
        decreases rules.len() - k,
    {
        proof {
            assert(m[k as int] == rule_model(rules@[k as int]));
        }
        if let RouteRules::Authorize = &rules[k] {
            assert(m[k as int] is Authorize);
            return true;
        }
        k = k + 1;
    }
    false
}

/// Finds the first role-requirement rule.
fn find_roles_rule(rules: &Vec<RouteRules>) -> (r: Option<usize>)
    ensures
        match r {
            Some(i) => i < rules@.len() && (rules@[i as int] matches RouteRules::Roles(v)
                && required_roles(rules_model(rules@)) == Some(v.deep_view())),
            None => required_roles(rules_model(rules@)) is None,
        },
{
    let ghost m = rules_model(rules@);
    let mut k: usize = 0;
    proof {
        assert(m.skip(0) =~= m);
    }
    while k < rules.len()
        invariant
            k <= rules.len(),
            m == rules_model(rules@),
            m.len() == rules.len(),
            required_roles(m) == required_roles(m.skip(k as int)),
        decreases rules.len() - k,
    {
        proof {
            assert(m.skip(k as int)[0] == m[k as int]);
            assert(m[k as int] == rule_model(rules@[k as int]));
            assert(m.skip(k as int).drop_first() =~= m.skip(k + 1));
        }
        if let RouteRules::Roles(_) = &rules[k] {
            return Some(k);
        }
        k = k + 1;
    }
    proof {
        assert(m.skip(m.len() as int) =~= Seq::<RuleModel>::empty());
    }
    None
}

/// Finds the first body-size rule the body exceeds.
fn find_size_violation(rules: &Vec<RouteRules>, body_len: usize) -> (r: Option<usize>)
    ensures
        match r {
            Some(i) => i < rules@.len() && (rules@[i as int] matches RouteRules::RequestSizeLimit(
                l,
            ) && body_len > l && first_size_violation(rules_model(rules@), body_len as int)
                == Some(l as int)),
            None => first_size_violation(rules_model(rules@), body_len as int) is None,
        },
{
    let ghost m = rules_model(rules@);
    let mut k: usize = 0;
    proof {
        assert(m.skip(0) =~= m);
    }
    while k < rules.len()
        invariant
            k <= rules.len(),
            m == rules_model(rules@),
            m.len() == rules.len(),
            first_size_violation(m, body_len as int) == first_size_violation(
                m.skip(k as int),
                body_len as int,
            ),
        decreases rules.len() - k,
    {
        proof {
            assert(m.skip(k as int)[0] == m[k as int]);
            assert(m[k as int] == rule_model(rules@[k as int]));
            assert(m.skip(k as int).drop_first() =~= m.skip(k + 1));
        }
        if let RouteRules::RequestSizeLimit(l) = &rules[k] {
            if body_len > *l {
                return Some(k);
            }
        }
        k = k + 1;
    }
    proof {
        assert(m.skip(m.len() as int) =~= Seq::<RuleModel>::empty());
    }
    None
}

/// Builds the diagnostic message of a payload-size rejection.
fn build_size_message(route_path: &str, limit: usize) -> (r: String)
    ensures
        r@ == size_message(route_path@, limit as int),
{
    let mut s = String::from_str("Request to route '");
    s.append(route_path);
    s.append("' exceeded the allowed size: ");
    append_decimal(&mut s, limit as u64);
    s.append(" bytes");
    proof {
        assert(s@ =~= size_message(route_path@, limit as int));
    }
    s
}

/// Decides whether two role sets share a role.
fn roles_intersect_exec(a: &Vec<String>, b: &Vec<String>) -> (r: bool)
    ensures
        r == roles_intersect(a.deep_view(), b.deep_view()),
{
    let ghost av = a.deep_view();
    let ghost bv = b.deep_view();
    let mut i: usize = 0;
    while i < a.len()
        invariant
            i <= a.len(),
            av == a.deep_view(),
            bv == b.deep_view(),
            av.len() == a.len(),
            bv.len() == b.len(),
            forall|p: int, q: int| 0 <= p < i && 0 <= q < bv.len() ==> av[p] != bv[q],
        decreases a.len() - i,
    {
        let mut j: usize = 0;
        while j < b.len()
            invariant
                i < a.len(),
                j <= b.len(),
                av == a.deep_view(),
                bv == b.deep_view(),
                av.len() == a.len(),
                bv.len() == b.len(),
                forall|q: int| 0 <= q < j ==> av[i as int] != bv[q],
            decreases b.len() - j,
        {
            proof {
                assert(av[i as int] == a@[i as int]@);
                assert(bv[j as int] == b@[j as int]@);
            }
            if a[i].eq(&b[j]) {
                assert(av[i as int] == bv[j as int]);
                return true;
            }
            j = j + 1;
        }
        i = i + 1;
    }
    false
}

/// Evaluates a route's rules against the inbound request, as of time
/// `now`: the identity the rules established when every rule passes, or
/// the terminal rejection response.  The handler and the middleware chain
/// are never invoked for a rejected request.
pub fn evaluate_rules<V>(
    rules: &Vec<RouteRules>,
    headers: &Vec<(String, String)>,
    body_len: usize,
    route_path: &str,
    auth: &Option<AuthConfig>,
    now: i64,
) -> (r: Result<Option<User>, ActionResult<V>>)
    ensures
        ({
            let g = gate_of(
                rules_model(rules@),
                headers.deep_view(),
                body_len as int,
                route_path@,
                secret_of(*auth),
                now as int,
            );
            match r {
                Ok(u) => g == GateOutcome::Pass(opt_user_view(u)),
                Err(a) => g matches GateOutcome::Reject(rej) && action_matches_rejection(a, rej),
            }
        }),
{
    if let Some(i) = find_size_violation(rules, body_len) {
        let limit: usize = match &rules[i] {
            RouteRules::RequestSizeLimit(l) => *l,
            _ => unreached(),
        };
        return Err(ActionResult::PayloadTooLarge(build_size_message(route_path, limit)));
    }
    let ident: Option<User> = if scan_allow_anonymous(rules) {
        None
    } else if scan_authorize(rules) {
        match auth {
            None => {
                return Err(ActionResult::UnAuthorized(String::from_str("No auth config")));
            },
            Some(cfg) => {
                match header_get(headers, "Authorization") {
                    None => {
                        return Err(ActionResult::UnAuthorized(String::from_str("Missing token")));
                    },
                    Some(v) => {
                        let tok = bearer_of(v.as_str());
                        match cfg.validate_token_at(tok.as_str(), now) {
                            Err(_) => {
                                return Err(ActionResult::UnAuthorized(String::from_str(
                                    "Invalid token",
                                )));
                            },
                            Ok(c) => Some(User { name: c.sub, roles: c.roles }),
                        }
                    },
                }
            },
        }
    } else {
        None
    };
    match find_roles_rule(rules) {
        None => Ok(ident),
        Some(i) => {
            let req: &Vec<String> = match &rules[i] {
                RouteRules::Roles(v) => v,
                _ => unreached(),
            };
            match ident {
                None => Err(ActionResult::Forbidden(String::from_str("Insufficient role"))),
                Some(u) => {
                    if roles_intersect_exec(&u.roles, req) {
                        Ok(Some(u))
                    } else {
                        Err(ActionResult::Forbidden(String::from_str("Insufficient role")))
                    }
                },
            }
        },
    }
}

/// A route: a path pattern bound to a handler, its rules, and a method.
/// Immutable once registered.
pub struct Route<H> {
    /// The pattern to match, e.g. `/about` or `/say_hello/{name}`.
    pub path: String,
    /// The action to execute when the route is matched.
    pub action: H,
    /// Route rules.
    pub rules: Vec<RouteRules>,
    /// HTTP method.
    pub method: HttpMethod,
}

/// Whether one route accepts a request's path and method.  A route whose
/// path exists but is registered for another method does not accept:
/// such a request is a routing miss, not "method not allowed".
pub open spec fn matches_route<H>(r: Route<H>, path: Seq<char>, method: HttpMethod) -> bool {
    route_matches(r.path@, path) && r.method == method
}

/// The index of the first route accepting the request, searching from
/// `k`: registration order determines precedence, first match wins.
pub open spec fn first_match_from<H>(
    routes: Seq<Route<H>>,
    path: Seq<char>,
    method: HttpMethod,
    k: int,
) -> Option<int>
    decreases routes.len() - k,
{
    if k < 0 || k >= routes.len() {
        None
    } else if matches_route(routes[k], path, method) {
        Some(k)
    } else {
        first_match_from(routes, path, method, k + 1)
    }
}

/// Copies a list of strings; the copy reads the same.
fn copy_strings(v: &Vec<String>) -> (r: Vec<String>)
    ensures
        r.deep_view() == v.deep_view(),
{
    let mut out: Vec<String> = Vec::new();
    let mut k: usize = 0;
    while k < v.len()
        invariant
            k <= v.len(),
            out.deep_view() =~= v.deep_view().take(k as int),
        decreases v.len() - k,
    {
        let ghost pre = out.deep_view();
        out.push(v[k].clone());
        proof {
            assert(out.deep_view() =~= pre.push(v@[k as int]@));
            assert(v.deep_view().take(k + 1) =~= v.deep_view().take(k as int).push(
                v@[k as int]@,
            ));
        }
        k = k + 1;
    }
    proof {
        assert(v.deep_view().take(v@.len() as int) =~= v.deep_view());
    }
    out
}

/// Copies a rule list; the copy carries the same rules.
fn copy_rules(rules: &Vec<RouteRules>) -> (r: Vec<RouteRules>)
    ensures
        rules_model(r@) == rules_model(rules@),
{
    let mut out: Vec<RouteRules> = Vec::new();
    let mut k: usize = 0;
    while k < rules.len()
        invariant
            k <= rules.len(),
            rules_model(out@) =~= rules_model(rules@).take(k as int),
        decreases rules.len() - k,
    {
        let ghost pre = out@;
        let copied: RouteRules = match &rules[k] {
            RouteRules::Authorize => RouteRules::Authorize,
            RouteRules::AllowAnonymous => RouteRules::AllowAnonymous,
            RouteRules::Roles(v) => RouteRules::Roles(copy_strings(v)),
            RouteRules::RequestSizeLimit(l) => RouteRules::RequestSizeLimit(*l),
        };
        proof {
            assert(rule_model(copied) == rule_model(rules@[k as int]));
        }
        out.push(copied);
        proof {
            assert(rules_model(out@) =~= rules_model(pre).push(rule_model(copied)));
            assert(rules_model(rules@).take(k + 1) =~= rules_model(rules@).take(k as int).push(
                rule_model(rules@[k as int]),
            ));
        }
        k = k + 1;
    }
    proof {
        assert(rules_model(rules@).take(rules@.len() as int) =~= rules_model(rules@));
    }
    out
}

/// The main server: holds the registered routes and middlewares, set up
/// once before serving begins and never mutated afterwards, and shared
/// read-only across concurrently handled requests.
pub struct Server<H, M> {
    routes: Vec<Route<H>>,
    middlewares: Vec<M>,
    auth_config: Option<AuthConfig>,
}

impl<H, M> Server<H, M> {
    /// The registered routes, in registration order.
    pub closed spec fn spec_routes(&self) -> Seq<Route<H>> {
        self.routes@
    }

    /// The registered middlewares, in registration order.
    pub closed spec fn spec_middlewares(&self) -> Seq<M> {
        self.middlewares@
    }

    /// The authentication secret, if one was configured.
    pub closed spec fn spec_secret(&self) -> Option<Seq<char>> {
        secret_of(self.auth_config)
    }

    /// Creates a server with no routes, no middlewares and no
    /// authentication configuration.  Nothing is registered implicitly:
    /// a logging middleware, if wanted, is added like any other.
    pub fn new() -> (r: Self)
        ensures
            r.spec_routes() == Seq::<Route<H>>::empty(),
            r.spec_middlewares() == Seq::<M>::empty(),
            r.spec_secret() is None,
    {
        Self { routes: Vec::new(), middlewares: Vec::new(), auth_config: None }
    }

    /// Sets the authentication configuration used by `Authorize` rules
    /// and token issuance.
    pub fn set_auth_config(&mut self, config: AuthConfig)
        ensures
            final(self).spec_secret() == Some(config.secret@),
            final(self).spec_routes() == old(self).spec_routes(),
            final(self).spec_middlewares() == old(self).spec_middlewares(),
    {
        self.auth_config = Some(config);
    }

    /// Adds a middleware; middlewares begin executing in the order they
    /// were added.
    pub fn add_middleware(&mut self, mw: M)
        ensures
            final(self).spec_middlewares() == old(self).spec_middlewares().push(mw),
            final(self).spec_routes() == old(self).spec_routes(),
            final(self).spec_secret() == old(self).spec_secret(),
    {
        self.middlewares.push(mw);
    }

    /// Registers a route.  On duplicate registrations for the same path
    /// and method the earlier one wins at match time.
    pub fn add_route(&mut self, path: &str, action: H, method: HttpMethod, rules: Vec<RouteRules>)
        ensures
            final(self).spec_routes().len() == old(self).spec_routes().len() + 1,
            final(self).spec_routes() == old(self).spec_routes().push(
                final(self).spec_routes().last(),
            ),
            final(self).spec_routes().last().path@ == path@,
            final(self).spec_routes().last().method == method,
            final(self).spec_routes().last().rules == rules,
            final(self).spec_routes().last().action == action,
            final(self).spec_middlewares() == old(self).spec_middlewares(),
            final(self).spec_secret() == old(self).spec_secret(),
    {
        self.routes.push(Route { path: path.to_owned(), action, method, rules });
    }

    /// Issues a token for the given claims, expiring `expires_in_secs`
    /// seconds from now; nothing is issued while no authentication
    /// configuration is set.
    pub fn generate_token(&self, claims: Claims, expires_in_secs: i64) -> (r: Option<String>)
        ensures
            match r {
                None => self.spec_secret() is None,
                Some(t) => self.spec_secret() matches Some(sec) && exists|now: int|
                    t@ == token_of(
                        ClaimsView {
                            sub: claims.sub@,
                            roles: claims.roles.deep_view(),
                            exp: expiry_at(now, expires_in_secs as int),
                        },
                        sec,
                    ),
            },
    {
        match &self.auth_config {
            None => None,
            Some(cfg) => Some(cfg.generate_token(&claims.sub, claims.roles, expires_in_secs)),
        }
    }

    /// Finds the first registered route that accepts the request: the
    /// returned route matches in both path and method, and no earlier
    /// registration does; `None` exactly when no route accepts.
    pub fn find_route(&self, path: &str, method: HttpMethod) -> (r: Option<usize>)
        ensures
            match r {
                Some(i) => first_match_from(self.spec_routes(), path@, method, 0) == Some(
                    i as int,
                ) && 0 <= i < self.spec_routes().len() && matches_route(
                    self.spec_routes()[i as int],
                    path@,
                    method,
                ) && forall|j: int|
                    0 <= j < i ==> !matches_route(self.spec_routes()[j], path@, method),
                None => first_match_from(self.spec_routes(), path@, method, 0) is None && forall|
                    j: int,
                |
                    0 <= j < self.spec_routes().len() ==> !matches_route(
                        self.spec_routes()[j],
                        path@,
                        method,
                    ),
            },
    {
        let ghost rs = self.spec_routes();
        let mut k: usize = 0;
        while k < self.routes.len()
            invariant
                k <= self.routes.len(),
                rs == self.spec_routes(),
                rs.len() == self.routes.len(),
                first_match_from(rs, path@, method, 0) == first_match_from(rs, path@, method,
                    k as int,
                ),
                forall|j: int| 0 <= j < k ==> !matches_route(rs[j], path@, method),
            decreases self.routes.len() - k,
        {
            let route = &self.routes[k];
            let same_method = route.method == method;
            let matched = if same_method {
                match_path(route.path.as_str(), path).is_some()
            } else {
                false
            };
            if matched {
                proof {
                    assert(matches_route(rs[k as int], path@, method));
                }
                return Some(k);
            }
            proof {
                assert(!matches_route(rs[k as int], path@, method));
            }
            k = k + 1;
        }
        None
    }
}


/// What the dispatcher promises of one response `r`, dispatched at time
/// `now` against the given routes and secret: no matching route — or an
/// unrecognised method — is a terminal `NotFound`, and a rule rejection
/// of the matched route is that rule's terminal response.
pub open spec fn dispatch_contract<V, H>(
    routes: Seq<Route<H>>,
    secret: Option<Seq<char>>,
    path: Seq<char>,
    method: HttpMethod,
    headers: Seq<(Seq<char>, Seq<char>)>,
    body_len: int,
    r: ActionResult<V>,
    now: int,
) -> bool {
    let m = first_match_from(routes, path, method, 0);
    &&& (m is None ==> r == ActionResult::<V>::NotFound)
    &&& (m matches Some(i) ==> (method == HttpMethod::NotSupported ==> r
        == ActionResult::<V>::NotFound) && (method != HttpMethod::NotSupported ==> {
        let route = routes[i];
        gate_of(
            rules_model(route.rules@),
            headers,
            body_len,
            route.path@,
            secret,
            now,
        ) matches GateOutcome::Reject(rej) ==> action_matches_rejection(r, rej)
    }))
}

impl<H, M> Server<H, M> {
    /// Dispatches one request, as of time `now`.  The request runs the
    /// state machine received, matched, rule-checked, dispatched: no
    /// matching route — or an unrecognised method — is a terminal
    /// `NotFound`; a rule rejection is that rule's terminal response,
    /// with the handler and the chain never invoked; otherwise the
    /// middleware chain wraps the matched handler, with the identity the
    /// rules established and the pattern's captured placeholders placed
    /// on the context, and whatever the chain produces is the response.
    pub fn handle_request_at<V>(&self, ctx: RequestContext, now: i64) -> (r: ActionResult<V>) where
        H: Handler<V>,
        M: Middleware<V>,

        ensures
            dispatch_contract(
                self.spec_routes(),
                self.spec_secret(),
                ctx.path@,
                ctx.method,
                ctx.headers.deep_view(),
                ctx.body@.len() as int,
                r,
                now as int,
            ),
    {
        let found = self.find_route(ctx.path.as_str(), ctx.method);
        let i = match found {
            None => {
                return ActionResult::NotFound;
            },
            Some(i) => i,
        };
        if ctx.method == HttpMethod::NotSupported {
            return ActionResult::NotFound;
        }
        let route = &self.routes[i];
        let gate = evaluate_rules::<V>(
            &route.rules,
            &ctx.headers,
            ctx.body.len(),
            route.path.as_str(),
            &self.auth_config,
            now,
        );
        let ident = match gate {
            Err(resp) => {
                return resp;
            },
            Ok(u) => u,
        };
        let path_params = match match_path(route.path.as_str(), ctx.path.as_str()) {
            Some(ps) => ps,
            None => unreached(),
        };
        let rules_copy = copy_rules(&route.rules);
        let forwarded = RequestContext {
            params: ctx.params,
            headers: ctx.headers,
            path: ctx.path,
            path_params,
            body: ctx.body,
            method: ctx.method,
            rules: rules_copy,
            user: ident,
        };
        run_chain(&self.middlewares, &route.action, forwarded, 0)
    }

    /// Dispatches one request as of the clock's present reading.
    pub fn handle_request<V>(&self, ctx: RequestContext) -> (r: ActionResult<V>) where
        H: Handler<V>,
        M: Middleware<V>,

        ensures
            exists|now: int|
                #![trigger dispatch_contract(
                    self.spec_routes(),
                    self.spec_secret(),
                    ctx.path@,
                    ctx.method,
                    ctx.headers.deep_view(),
                    ctx.body@.len() as int,
                    r,
                    now,
                )]
                dispatch_contract(
                    self.spec_routes(),
                    self.spec_secret(),
                    ctx.path@,
                    ctx.method,
                    ctx.headers.deep_view(),
                    ctx.body@.len() as int,
                    r,
                    now,
                ),
            first_match_from(self.spec_routes(), ctx.path@, ctx.method, 0) is None ==> r
                == ActionResult::<V>::NotFound,
    {
        let now = crate::authentication::current_timestamp();
        let r = self.handle_request_at(ctx, now);
        proof {
            let w = now as int;
            assert(dispatch_contract(
                self.spec_routes(),
                self.spec_secret(),
                ctx.path@,
                ctx.method,
                ctx.headers.deep_view(),
                ctx.body@.len() as int,
                r,
                w,
            ));
        }
        r
    }
}

/// A route that grants anonymous access never rejects a request for want
/// of authentication: no gate outcome of such a route is `Unauthorized`.
pub proof fn lemma_allow_anonymous_never_unauthorized(
    rules: Seq<RuleModel>,
    headers: Seq<(Seq<char>, Seq<char>)>,
    body_len: int,
    route_path: Seq<char>,
    secret: Option<Seq<char>>,
    now: int,
)
    requires
        has_allow_anonymous(rules),
    ensures
        !(gate_of(rules, headers, body_len, route_path, secret, now) matches GateOutcome::Reject(
            RejectionView::Unauthorized(m),
        )),
{
}

/// A route that requires authentication, does not grant anonymous
/// access, and is within its size limits rejects a request with no
/// `Authorization` header as `Unauthorized("Missing token")`, and one
/// whose bearer value fails verification as
/// `Unauthorized("Invalid token")`.
pub proof fn lemma_authorize_rejections(
    rules: Seq<RuleModel>,
    headers: Seq<(Seq<char>, Seq<char>)>,
    body_len: int,
    route_path: Seq<char>,
    sec: Seq<char>,
    now: int,
)
    requires
        has_authorize(rules),
        !has_allow_anonymous(rules),
        first_size_violation(rules, body_len) is None,
    ensures
        header_lookup(headers, "Authorization"@) is None ==> gate_of(
            rules,
            headers,
            body_len,
            route_path,
            Some(sec),
            now,
        ) == GateOutcome::Reject(RejectionView::Unauthorized("Missing token"@)),
        forall|v: Seq<char>|
            header_lookup(headers, "Authorization"@) == Some(v) && verify_model(
                bearer_token(v),
                sec,
                now,
            ) is Err ==> gate_of(rules, headers, body_len, route_path, Some(sec), now)
                == GateOutcome::Reject(RejectionView::Unauthorized("Invalid token"@)),
{
}

/// A body over a route's size limit is rejected as `PayloadTooLarge`,
/// with the route's pattern and the limit in the message, regardless of
/// every other rule and of the authentication outcome.
pub proof fn lemma_size_limit_unconditional(
    rules: Seq<RuleModel>,
    headers: Seq<(Seq<char>, Seq<char>)>,
    body_len: int,
    route_path: Seq<char>,
    secret: Option<Seq<char>>,
    now: int,
)
    ensures
        first_size_violation(rules, body_len) matches Some(l) ==> gate_of(
            rules,
            headers,
            body_len,
            route_path,
            secret,
            now,
        ) == GateOutcome::Reject(RejectionView::PayloadTooLarge(size_message(route_path, l))),
{
}

} // verus!
