//! Issuing and verifying signed, time-bound identity tokens.
//!
//! A token is the concatenation of a self-delimiting claims payload and a
//! signature over that payload.  The payload renders, in order: the expiry
//! as 16 hexadecimal digits, the subject length and subject, the role count,
//! and each role's length and text.  The signature is an HMAC-SHA256 over
//! the payload characters, computed by the `jsonwebtoken` crate with the
//! server-held secret; validity of a token is fully determined by the
//! signature and the embedded expiry at verification time.

use crate::textenc::hex_w;
use crate::textenc::lemma_hex_w_len;
use crate::textenc::lemma_parse_hex_run_of_hex_w;
use crate::textenc::lemma_pow16_le_u64;
use crate::textenc::parse_hex_run;
use crate::textenc::pow16;
use crate::textenc::append_hex16;
use crate::textenc::read_hex16;
use vstd::prelude::*;
use vstd::string::StrSliceExecFns;
use vstd::string::StringExecFns;

verus! {

/// Why verification of a token failed.
#[derive(Clone, Copy, PartialEq, Eq, Structural, Debug)]
pub enum AuthError {
    /// The token does not parse as a claims payload followed by a signature.
    Malformed,
    /// The signature is not the one the verifying secret yields for the payload.
    BadSignature,
    /// The verification time lies past the embedded expiry.
    Expired,
}

/// The claims a token carries: subject, roles, and an absolute expiry
/// (seconds since the Unix epoch).
#[derive(Clone, Debug)]
pub struct Claims {
    pub sub: String,
    pub roles: Vec<String>,
    pub exp: usize,
}

/// The mathematical content of a `Claims` value.
#[verifier::ext_equal]
pub struct ClaimsView {
    pub sub: Seq<char>,
    pub roles: Seq<Seq<char>>,
    pub exp: int,
}

impl View for Claims {
    type V = ClaimsView;

    open spec fn view(&self) -> ClaimsView {
        ClaimsView { sub: self.sub@, roles: self.roles.deep_view(), exp: self.exp as int }
    }
}

/// Claims whose fields fit the fixed-width length records of the payload.
pub open spec fn wf_claims(c: ClaimsView) -> bool {
    &&& 0 <= c.exp <= usize::MAX
    &&& c.sub.len() < pow16(16)
    &&& c.roles.len() < pow16(16)
    &&& forall|k: int| 0 <= k < c.roles.len() ==> (#[trigger] c.roles[k]).len() < pow16(16)
}

/// The 16-digit rendering of one length or count.
pub open spec fn num16(u: int) -> Seq<char> {
    hex_w(u, 16)
}

/// The length-prefixed rendering of the roles, in order.
pub open spec fn roles_part(rs: Seq<Seq<char>>) -> Seq<char>
    decreases rs.len(),
{
    if rs.len() == 0 {
        Seq::<char>::empty()
    } else {
        num16(rs[0].len() as int) + rs[0] + roles_part(rs.drop_first())
    }
}

/// The claims payload: expiry, subject, roles, each length-prefixed.
pub open spec fn payload_of(c: ClaimsView) -> Seq<char> {
    num16(c.exp) + num16(c.sub.len() as int) + c.sub + num16(c.roles.len() as int) + roles_part(
        c.roles,
    )
}

/// The signature that the signing backend yields for a payload under a
/// secret.  HMAC-SHA256 is a function of these two arguments alone; its
/// value is not written out here.
pub uninterp spec fn sig_of(payload: Seq<char>, secret: Seq<char>) -> Seq<char>;

/// The one token that `generate_token_at` issues for given claims.
pub open spec fn token_of(c: ClaimsView, secret: Seq<char>) -> Seq<char> {
    payload_of(c) + sig_of(payload_of(c), secret)
}

/// Relies on `jsonwebtoken::crypto::sign` with `Algorithm::HS256`: the
/// base64url HMAC-SHA256 of the payload bytes under the secret, a function
/// of the two arguments alone.  For an HMAC key of any length the backend's
/// signer cannot fail.
#[verifier::external_body]
fn hmac_sign(payload: &str, secret: &str) -> (r: String)
    ensures
        r@ == sig_of(payload@, secret@),
{
    jsonwebtoken::crypto::sign(
        payload.as_bytes(),
        &jsonwebtoken::EncodingKey::from_secret(secret.as_bytes()),
        jsonwebtoken::Algorithm::HS256,
    ).unwrap()
}

/// Relies on `chrono::Utc::now`: the current Unix timestamp in seconds.
/// Nothing is assumed of the clock's reading.
#[verifier::external_body]
pub(crate) fn current_timestamp() -> i64 {
    chrono::Utc::now().timestamp()
}

/// Holds the server-held symmetric secret that signs and verifies tokens.
pub struct AuthConfig {
    pub secret: String,
}

/// The expiry instant for a token issued at `now` with the given
/// time-to-live, clamped into the range an expiry field can hold.
pub open spec fn expiry_at(now: int, ttl: int) -> int {
    if now + ttl < 0 {
        0
    } else if now + ttl > usize::MAX {
        usize::MAX as int
    } else {
        now + ttl
    }
}

impl AuthConfig {
    pub fn new(secret: &str) -> (r: Self)
        ensures
            r.secret@ == secret@,
    {
        Self { secret: secret.to_owned() }
    }

    /// Issues the token for `sub` and `roles` that expires at `exp`.
    pub fn issue_with_expiry(&self, sub: &str, roles: &Vec<String>, exp: usize) -> (r: String)
        ensures
            r@ == token_of(
                ClaimsView { sub: sub@, roles: roles.deep_view(), exp: exp as int },
                self.secret@,
            ),
    {
        let ghost c = ClaimsView { sub: sub@, roles: roles.deep_view(), exp: exp as int };
        let mut p = String::new();
        append_hex16(&mut p, exp as u64);
        let slen = sub.unicode_len();
        append_hex16(&mut p, slen as u64);
        p.append(sub);
        append_hex16(&mut p, roles.len() as u64);
        proof {
            lemma_pow16_le_u64(16);
            assert(p@ =~= num16(c.exp) + num16(c.sub.len() as int) + c.sub + num16(
                c.roles.len() as int,
            ));
        }
        let ghost head = p@;
        let mut k: usize = 0;
        while k < roles.len()
            invariant
                k <= roles.len(),
                p@ == head + roles_part(roles.deep_view().take(k as int)),
            decreases roles.len() - k,
        {
            let role: &String = &roles[k];
            append_hex16(&mut p, role.as_str().unicode_len() as u64);
            p.append(role.as_str());
            proof {
                let rs = roles.deep_view();
                assert(rs[k as int] == roles[k as int]@);
                lemma_roles_part_snoc(rs.take(k as int), rs[k as int]);
                assert(rs.take(k as int).push(rs[k as int]) =~= rs.take(k + 1));
                assert(p@ =~= head + roles_part(rs.take(k + 1)));
            }
            k = k + 1;
        }
        proof {
            assert(roles.deep_view().take(roles.len() as int) =~= roles.deep_view());
            assert(p@ =~= payload_of(c));
        }
        let sig = hmac_sign(p.as_str(), self.secret.as_str());
        let token = p.concat(sig.as_str());
        proof {
            assert(token@ =~= token_of(c, self.secret@));
        }
        token
    }

    /// Issues a token whose expiry is `now + expires_in_secs`, clamped into
    /// the representable range.
    pub fn generate_token_at(
        &self,
        sub: &str,
        roles: &Vec<String>,
        expires_in_secs: i64,
        now: i64,
    ) -> (r: String)
        ensures
            r@ == token_of(
                ClaimsView {
                    sub: sub@,
                    roles: roles.deep_view(),
                    exp: expiry_at(now as int, expires_in_secs as int),
                },
                self.secret@,
            ),
    {
        let wide: i128 = now as i128 + expires_in_secs as i128;
        let exp: usize = if wide < 0 {
            0
        } else if wide > usize::MAX as i128 {
            usize::MAX
        } else {
            wide as usize
        };
        self.issue_with_expiry(sub, roles, exp)
    }

    /// Issues a token that expires `expires_in_secs` seconds after the
    /// clock's present reading.
    pub fn generate_token(&self, sub: &str, roles: Vec<String>, expires_in_secs: i64) -> (r:
        String)
        ensures
            exists|now: int|
                r@ == token_of(
                    ClaimsView {
                        sub: sub@,
                        roles: roles.deep_view(),
                        exp: expiry_at(now, expires_in_secs as int),
                    },
                    self.secret@,
                ),
    {
        let now = current_timestamp();
        let r = self.generate_token_at(sub, &roles, expires_in_secs, now);
        proof {
            assert(r@ == token_of(
                ClaimsView {
                    sub: sub@,
                    roles: roles.deep_view(),
                    exp: expiry_at(now as int, expires_in_secs as int),
                },
                self.secret@,
            ));
        }
        r
    }

    /// Verifies `token` under this configuration's secret, as of time
    /// `now`: yields the embedded claims exactly when the token is a
    /// well-signed, unexpired claims payload, and otherwise the first
    /// failure in the order parse, signature, expiry.
    pub fn validate_token_at(&self, token: &str, now: i64) -> (r: Result<Claims, AuthError>)
        ensures
            match r {
                Ok(c) => verify_model(token@, self.secret@, now as int) == Ok::<
                    ClaimsView,
                    AuthError,
                >(c@),
                Err(e) => verify_model(token@, self.secret@, now as int) == Err::<
                    ClaimsView,
                    AuthError,
                >(e),
            },
    {
        let n = token.unicode_len();
        let exp64 = match read_hex16(token, 0) {
            Some(u) => u,
            None => {
                return Err(AuthError::Malformed);
            },
        };
        if exp64 > usize::MAX as u64 {
            return Err(AuthError::Malformed);
        }
        let exp: usize = exp64 as usize;
        assert(16 <= token@.len());
        let slen64 = match read_hex16(token, 16) {
            Some(u) => u,
            None => {
                return Err(AuthError::Malformed);
            },
        };
        assert(32 <= token@.len());
        if slen64 > (n - 32) as u64 {
            return Err(AuthError::Malformed);
        }
        let slen = slen64 as usize;
        let sub = token.substring_char(32, 32 + slen).to_owned();
        let nroles64 = match read_hex16(token, 32 + slen) {
            Some(u) => u,
            None => {
                return Err(AuthError::Malformed);
            },
        };
        assert(48 + slen <= token@.len());
        let ghost start = 48 + slen as int;
        let mut cursor: usize = 48 + slen;
        let mut remaining: u64 = nroles64;
        let mut roles: Vec<String> = Vec::new();
        proof {
            assert(roles.deep_view() =~= Seq::<Seq<char>>::empty());
            if let Some((rest, end)) = parse_roles(token@, start, nroles64 as int) {
                assert(roles.deep_view() + rest =~= rest);
            }
        }
        loop
            invariant
                n == token@.len(),
                cursor <= n,
                parse_hex_run(token@, 0, 16) == Some(exp64 as int),
                exp64 <= usize::MAX as u64,
                exp == exp64 as usize,
                parse_hex_run(token@, 16, 16) == Some(slen64 as int),
                slen == slen64 as usize,
                32 + slen <= n,
                sub@ == token@.subrange(32, 32 + slen as int),
                parse_hex_run(token@, 32 + slen as int, 16) == Some(nroles64 as int),
                start == 48 + slen as int,
                parse_roles(token@, start, nroles64 as int) == (match parse_roles(
                    token@,
                    cursor as int,
                    remaining as int,
                ) {
                    None => None::<(Seq<Seq<char>>, int)>,
                    Some((rest, end)) => Some((roles.deep_view() + rest, end)),
                }),
            ensures
                remaining == 0,
            decreases remaining,
        {
            if remaining == 0 {
                break ;
            }
            let l64 = match read_hex16(token, cursor) {
                Some(u) => u,
                None => {
                    return Err(AuthError::Malformed);
                },
            };
            assert(cursor + 16 <= n);
            if l64 > (n - cursor - 16) as u64 {
                return Err(AuthError::Malformed);
            }
            let l = l64 as usize;
            let role = token.substring_char(cursor + 16, cursor + 16 + l).to_owned();
            let ghost pre_roles = roles.deep_view();
            roles.push(role);
            proof {
                assert(roles.deep_view() =~= pre_roles.push(
                    token@.subrange(cursor + 16, cursor + 16 + l),
                ));
                let sub_parse = parse_roles(token@, cursor as int, remaining as int);
                let next_parse = parse_roles(token@, cursor + 16 + l, remaining - 1);
                match next_parse {
                    None => {
                        assert(sub_parse is None);
                    },
                    Some((rest, end)) => {
                        assert(sub_parse == Some(
                            (seq![token@.subrange(cursor + 16, cursor + 16 + l)] + rest, end),
                        ));
                        assert(pre_roles + (seq![
                            token@.subrange(cursor + 16, cursor + 16 + l),
                        ] + rest) =~= roles.deep_view() + rest);
                    },
                }
            }
            cursor = cursor + 16 + l;
            remaining = remaining - 1;
        }
        proof {
            assert(parse_roles(token@, cursor as int, 0) == Some(
                (Seq::<Seq<char>>::empty(), cursor as int),
            ));
            assert(roles.deep_view() + Seq::<Seq<char>>::empty() =~= roles.deep_view());
            assert(parse_roles(token@, start, nroles64 as int) == Some(
                (roles.deep_view(), cursor as int),
            ));
        }
        let payload = token.substring_char(0, cursor);
        let sigpart = token.substring_char(cursor, n).to_owned();
        let computed = hmac_sign(payload, self.secret.as_str());
        if !sigpart.eq(&computed) {
            return Err(AuthError::BadSignature);
        }
        if now >= 0 && now as u64 > exp as u64 {
            return Err(AuthError::Expired);
        }
        let c = Claims { sub, roles, exp };
        proof {
            let parsed = parse_claims(token@);
            assert(parsed matches Some((pc, end)) && pc =~= c@ && end == cursor as int);
        }
        Ok(c)
    }

    /// Verifies `token` as of the clock's present reading.
    pub fn validate_token(&self, token: &str) -> (r: Result<Claims, AuthError>)
        ensures
            exists|now: int|
                #![trigger verify_model(token@, self.secret@, now)]
                match r {
                    Ok(c) => verify_model(token@, self.secret@, now) == Ok::<
                        ClaimsView,
                        AuthError,
                    >(c@),
                    Err(e) => verify_model(token@, self.secret@, now) == Err::<
                        ClaimsView,
                        AuthError,
                    >(e),
                },
    {
        let now = current_timestamp();
        let r = self.validate_token_at(token, now);
        proof {
            let w = now as int;
            assert(match r {
                Ok(c) => verify_model(token@, self.secret@, w) == Ok::<ClaimsView, AuthError>(
                    c@,
                ),
                Err(e) => verify_model(token@, self.secret@, w) == Err::<ClaimsView, AuthError>(
                    e,
                ),
            });
        }
        r
    }
}


/// Reads the roles section: `n` length-prefixed roles starting at `i`;
/// yields the roles and the position just past them.
pub open spec fn parse_roles(p: Seq<char>, i: int, n: int) -> Option<(Seq<Seq<char>>, int)>
    decreases n,
{
    if n <= 0 {
        if 0 <= i && i <= p.len() {
            Some((Seq::<Seq<char>>::empty(), i))
        } else {
            None
        }
    } else {
        match parse_hex_run(p, i, 16) {
            None => None,
            Some(l) => if i + 16 + l > p.len() {
                None
            } else {
                let role = p.subrange(i + 16, i + 16 + l);
                match parse_roles(p, i + 16 + l, n - 1) {
                    None => None,
                    Some((rest, end)) => Some((seq![role] + rest, end)),
                }
            },
        }
    }
}

/// Reads a whole claims payload from the front of `p`; yields the claims
/// and the position just past the payload.
pub open spec fn parse_claims(p: Seq<char>) -> Option<(ClaimsView, int)> {
    match parse_hex_run(p, 0, 16) {
        None => None,
        Some(exp) => if exp > usize::MAX {
            None
        } else {
            match parse_hex_run(p, 16, 16) {
                None => None,
                Some(slen) => if 32 + slen > p.len() {
                    None
                } else {
                    let sub = p.subrange(32, 32 + slen);
                    match parse_hex_run(p, 32 + slen, 16) {
                        None => None,
                        Some(n) => match parse_roles(p, 48 + slen, n) {
                            None => None,
                            Some((roles, end)) => Some(
                                (ClaimsView { sub, roles, exp }, end),
                            ),
                        },
                    }
                },
            }
        },
    }
}

/// What verifying `token` under `secret` at time `now` yields: the claims
/// when the token is a well-signed payload that has not expired, and
/// otherwise the first failure in the order parse, signature, expiry.
pub open spec fn verify_model(token: Seq<char>, secret: Seq<char>, now: int) -> Result<
    ClaimsView,
    AuthError,
> {
    match parse_claims(token) {
        None => Err(AuthError::Malformed),
        Some((c, end)) => if token.subrange(end, token.len() as int) != sig_of(
            token.subrange(0, end),
            secret,
        ) {
            Err(AuthError::BadSignature)
        } else if now > c.exp {
            Err(AuthError::Expired)
        } else {
            Ok(c)
        },
    }
}

/// Extending the role list extends its rendering on the right.
pub proof fn lemma_roles_part_snoc(rs: Seq<Seq<char>>, r: Seq<char>)
    ensures
        roles_part(rs.push(r)) == roles_part(rs) + num16(r.len() as int) + r,
    decreases rs.len(),
{
    let whole = rs.push(r);
    lemma_hex_w_len(r.len() as int, 16);
    if rs.len() > 0 {
        lemma_hex_w_len(rs[0].len() as int, 16);
    }
    if rs.len() == 0 {
        assert(whole.drop_first() =~= Seq::<Seq<char>>::empty());
        assert(whole[0] == r);
        assert(roles_part(whole) == num16(whole[0].len() as int) + whole[0] + roles_part(
            whole.drop_first(),
        ));
        assert(roles_part(whole.drop_first()) == Seq::<char>::empty());
        assert(roles_part(rs) == Seq::<char>::empty());
        assert(roles_part(whole) =~= roles_part(rs) + num16(r.len() as int) + r);
    } else {
        assert(whole.drop_first() =~= rs.drop_first().push(r));
        lemma_roles_part_snoc(rs.drop_first(), r);
        assert(whole[0] == rs[0]);
        let head = num16(rs[0].len() as int) + rs[0];
        assert(roles_part(whole) == head + roles_part(whole.drop_first()));
        assert(roles_part(whole.drop_first()) == roles_part(rs.drop_first()) + num16(
            r.len() as int,
        ) + r);
        assert(roles_part(rs) == head + roles_part(rs.drop_first()));
        assert(head + (roles_part(rs.drop_first()) + num16(r.len() as int) + r) =~= (head
            + roles_part(rs.drop_first())) + num16(r.len() as int) + r);
        assert(roles_part(whole) =~= roles_part(rs) + num16(r.len() as int) + r);
    }
}


/// A text that holds a concatenation holds each part in place.
proof fn lemma_subrange_split(p: Seq<char>, i: int, a: Seq<char>, b: Seq<char>)
    requires
        0 <= i,
        i + a.len() + b.len() <= p.len(),
        p.subrange(i, i + a.len() + b.len()) =~= a + b,
    ensures
        p.subrange(i, i + a.len()) =~= a,
        p.subrange(i + a.len(), i + a.len() + b.len()) =~= b,
{
    let whole = p.subrange(i, i + a.len() + b.len());
    assert(forall|k: int|
        0 <= k < a.len() ==> #[trigger] p.subrange(i, i + a.len())[k] == whole[k]);
    assert(forall|k: int|
        0 <= k < b.len() ==> #[trigger] p.subrange(i + a.len(), i + a.len() + b.len())[k]
            == whole[a.len() + k]);
}

/// A roles section written by `roles_part` reads back as the same roles.
pub proof fn lemma_parse_roles_of_roles_part(p: Seq<char>, i: int, rs: Seq<Seq<char>>)
    requires
        0 <= i,
        forall|k: int| 0 <= k < rs.len() ==> (#[trigger] rs[k]).len() < pow16(16),
        i + roles_part(rs).len() <= p.len(),
        p.subrange(i, i + roles_part(rs).len()) =~= roles_part(rs),
    ensures
        parse_roles(p, i, rs.len() as int) == Some((rs, i + roles_part(rs).len())),
    decreases rs.len(),
{
    if rs.len() == 0 {
        assert(parse_roles(p, i, 0) == Some((Seq::<Seq<char>>::empty(), i)));
        assert(rs =~= Seq::<Seq<char>>::empty());
    } else {
        let l0 = rs[0].len() as int;
        let rest = rs.drop_first();
        let tail_part = roles_part(rest);
        lemma_hex_w_len(l0, 16);
        assert(roles_part(rs) == num16(l0) + rs[0] + tail_part);
        assert(roles_part(rs) =~= num16(l0) + (rs[0] + tail_part));
        lemma_subrange_split(p, i, num16(l0), rs[0] + tail_part);
        lemma_parse_hex_run_of_hex_w(p, i, l0, 16);
        lemma_subrange_split(p, i + 16, rs[0], tail_part);
        assert(p.subrange(i + 16, i + 16 + l0) =~= rs[0]);
        lemma_parse_roles_of_roles_part(p, i + 16 + l0, rest);
        assert(parse_roles(p, i + 16 + l0, rest.len() as int) == Some(
            (rest, i + 16 + l0 + tail_part.len()),
        ));
        assert(seq![p.subrange(i + 16, i + 16 + l0)] + rest =~= rs);
        assert(parse_roles(p, i, rs.len() as int) == Some((rs, i + roles_part(rs).len())));
    }
}

/// A payload written by `payload_of`, with anything after it, reads back as
/// the same claims, ending exactly where the payload ends.
pub proof fn lemma_parse_claims_of_payload(c: ClaimsView, tail: Seq<char>)
    requires
        wf_claims(c),
    ensures
        parse_claims(payload_of(c) + tail) == Some((c, payload_of(c).len() as int)),
{
    reveal_with_fuel(pow16, 17);
    assert(pow16(16) == 0x1_0000_0000_0000_0000);
    let body = payload_of(c);
    let p = body + tail;
    let slen = c.sub.len() as int;
    let rp = roles_part(c.roles);
    lemma_hex_w_len(c.exp, 16);
    lemma_hex_w_len(slen, 16);
    lemma_hex_w_len(c.roles.len() as int, 16);
    assert(body.len() == 48 + slen + rp.len());
    assert(p.subrange(0, body.len() as int) =~= body);
    assert(body =~= num16(c.exp) + (num16(slen) + c.sub + num16(c.roles.len() as int) + rp));
    lemma_subrange_split(p, 0, num16(c.exp), num16(slen) + c.sub + num16(c.roles.len() as int)
        + rp);
    lemma_parse_hex_run_of_hex_w(p, 0, c.exp, 16);
    assert(num16(slen) + c.sub + num16(c.roles.len() as int) + rp =~= num16(slen) + (c.sub
        + num16(c.roles.len() as int) + rp));
    lemma_subrange_split(p, 16, num16(slen), c.sub + num16(c.roles.len() as int) + rp);
    lemma_parse_hex_run_of_hex_w(p, 16, slen, 16);
    assert(c.sub + num16(c.roles.len() as int) + rp =~= c.sub + (num16(c.roles.len() as int)
        + rp));
    lemma_subrange_split(p, 32, c.sub, num16(c.roles.len() as int) + rp);
    assert(p.subrange(32, 32 + slen) =~= c.sub);
    lemma_subrange_split(p, 32 + slen, num16(c.roles.len() as int), rp);
    lemma_parse_hex_run_of_hex_w(p, 32 + slen, c.roles.len() as int, 16);
    lemma_parse_roles_of_roles_part(p, 48 + slen, c.roles);
    assert(parse_roles(p, 48 + slen, c.roles.len() as int) == Some(
        (c.roles, 48 + slen + rp.len()),
    ));
    let parsed = parse_claims(p);
    assert(parsed matches Some((pc, end)) && pc =~= c && end == body.len());
}

/// A token issued for claims `c` under `secret` verifies under the same
/// secret at any time `now`: it yields the claims themselves while `now`
/// has not passed the expiry, and `Expired` afterwards.
pub proof fn lemma_token_round_trip(c: ClaimsView, secret: Seq<char>, now: int)
    requires
        wf_claims(c),
    ensures
        verify_model(token_of(c, secret), secret, now) == (if now > c.exp {
            Err::<ClaimsView, AuthError>(AuthError::Expired)
        } else {
            Ok::<ClaimsView, AuthError>(c)
        }),
{
    let body = payload_of(c);
    let sig = sig_of(body, secret);
    let t = token_of(c, secret);
    lemma_parse_claims_of_payload(c, sig);
    assert(t.subrange(0, body.len() as int) =~= body);
    assert(t.subrange(body.len() as int, t.len() as int) =~= sig);
}

/// A token issued under one secret and verified under another fails with
/// `BadSignature` whenever the two secrets sign its payload differently.
pub proof fn lemma_verify_foreign_secret(
    c: ClaimsView,
    issuing: Seq<char>,
    verifying: Seq<char>,
    now: int,
)
    requires
        wf_claims(c),
    ensures
        sig_of(payload_of(c), issuing) != sig_of(payload_of(c), verifying)
            ==> verify_model(token_of(c, issuing), verifying, now) == Err::<
            ClaimsView,
            AuthError,
        >(AuthError::BadSignature),
{
    let body = payload_of(c);
    let sig = sig_of(body, issuing);
    let t = token_of(c, issuing);
    lemma_parse_claims_of_payload(c, sig);
    assert(t.subrange(0, body.len() as int) =~= body);
    assert(t.subrange(body.len() as int, t.len() as int) =~= sig);
}

} // verus!
