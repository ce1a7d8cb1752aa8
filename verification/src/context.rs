//! The per-request context and the plain-value lookups over it.
//!
//! The transport hands the dispatcher the request's path, method, headers,
//! query parameters and body as plain values; query text is parsed here.
//! Query values are not percent-decoded; later occurrences of a query key
//! overwrite earlier ones, while header lookup is case-insensitive and
//! takes the first occurrence.

use crate::routing::first_sep;
use crate::routing::split_on;
use crate::routing::split_on_char;
use vstd::prelude::*;
use vstd::string::StrSliceExecFns;
use vstd::string::StringExecFns;

verus! {

/// The authenticated subject attached to a request after successful token
/// verification; absent means anonymous.
#[derive(Clone, Debug)]
pub struct User {
    pub name: String,
    pub roles: Vec<String>,
}

/// The mathematical content of a `User` value.
#[verifier::ext_equal]
pub struct UserView {
    pub name: Seq<char>,
    pub roles: Seq<Seq<char>>,
}

impl View for User {
    type V = UserView;

    open spec fn view(&self) -> UserView {
        UserView { name: self.name@, roles: self.roles.deep_view() }
    }
}

/// The key/value reading of one query pair: the text before the first `=`
/// and the text after it, or an empty value when there is no `=`.
pub open spec fn pair_of(p: Seq<char>) -> (Seq<char>, Seq<char>) {
    let f = first_sep(p, '=') as int;
    if f >= p.len() {
        (p, Seq::<char>::empty())
    } else {
        (p.take(f), p.skip(f + 1))
    }
}

/// The pairs of the given query segments, empty segments dropped.
pub open spec fn params_from(segs: Seq<Seq<char>>) -> Seq<(Seq<char>, Seq<char>)>
    decreases segs.len(),
{
    if segs.len() == 0 {
        Seq::<(Seq<char>, Seq<char>)>::empty()
    } else if segs[0].len() == 0 {
        params_from(segs.drop_first())
    } else {
        seq![pair_of(segs[0])] + params_from(segs.drop_first())
    }
}

/// The key/value pairs of a raw query text: `key=value` pairs split on
/// `&`, in order, empty pairs dropped, values not percent-decoded.
pub open spec fn params_of(qs: Seq<char>) -> Seq<(Seq<char>, Seq<char>)> {
    params_from(split_on(qs, '&'))
}

/// Parses a raw query text into its key/value pairs.
pub fn parse_query(qs: &str) -> (r: Vec<(String, String)>)
    ensures
        r.deep_view() == params_of(qs@),
{
    let segs = split_on_char(qs, '&');
    let ghost segsv = segs.deep_view();
    let mut params: Vec<(String, String)> = Vec::new();
    let mut k: usize = 0;
    proof {
        assert(params.deep_view() + params_from(segsv) =~= params_from(segsv));
        assert(segsv.skip(0) =~= segsv);
    }
    while k < segs.len()
        invariant
            k <= segs.len(),
            segsv == segs.deep_view(),
            segsv.len() == segs.len(),
            segsv == split_on(qs@, '&'),
            params_from(segsv) == params.deep_view() + params_from(segsv.skip(k as int)),
        decreases segs.len() - k,
    {
        let seg: &String = &segs[k];
        let n = seg.as_str().unicode_len();
        let ghost rest = segsv.skip(k as int);
        proof {
            assert(rest[0] == segsv[k as int]);
            assert(segsv[k as int] == segs[k as int]@);
            assert(rest.drop_first() =~= segsv.skip(k + 1));
        }
        if n == 0 {
            k = k + 1;
            continue ;
        }
        let mut j: usize = 0;
        while j < n && seg.as_str().get_char(j) != '='
            invariant
                j <= n,
                n == seg@.len(),
                forall|m: int| 0 <= m < j ==> seg@[m] != '=',
            decreases n - j,
        {
            j = j + 1;
        }
        proof {
            crate::routing::lemma_first_sep_at(seg@, '=', j as int);
        }
        let key = seg.as_str().substring_char(0, j).to_owned();
        let value = if j < n {
            seg.as_str().substring_char(j + 1, n).to_owned()
        } else {
            String::new()
        };
        let ghost pre = params.deep_view();
        params.push((key, value));
        proof {
            assert(seg@.take(j as int) =~= seg@.subrange(0, j as int));
            if j < n {
                assert(seg@.skip(j + 1) =~= seg@.subrange(j + 1, n as int));
            }
            if j == n {
                assert(seg@.subrange(0, n as int) =~= seg@);
            }
            assert(params.deep_view() =~= pre.push(pair_of(segsv[k as int])));
            assert(pre + (seq![pair_of(segsv[k as int])] + params_from(segsv.skip(k + 1))) =~= (pre
                + seq![pair_of(segsv[k as int])]) + params_from(segsv.skip(k + 1)));
        }
        k = k + 1;
    }
    proof {
        assert(segsv.skip(segsv.len() as int) =~= Seq::<Seq<char>>::empty());
        assert(params.deep_view() + Seq::<(Seq<char>, Seq<char>)>::empty() =~= params.deep_view());
    }
    params
}

/// The value of the last pair with the given key, if any: later query
/// occurrences overwrite earlier ones.
pub open spec fn assoc_last(ps: Seq<(Seq<char>, Seq<char>)>, key: Seq<char>) -> Option<Seq<char>>
    decreases ps.len(),
{
    if ps.len() == 0 {
        None
    } else if ps.last().0 == key {
        Some(ps.last().1)
    } else {
        assoc_last(ps.drop_last(), key)
    }
}

/// Looks up a query parameter: the last value recorded under `key`.
pub fn param_get(ps: &Vec<(String, String)>, key: &str) -> (r: Option<String>)
    ensures
        match r {
            Some(v) => assoc_last(ps.deep_view(), key@) == Some(v@),
            None => assoc_last(ps.deep_view(), key@) is None,
        },
{
    let keyed = key.to_owned();
    let ghost psv = ps.deep_view();
    let mut k: usize = ps.len();
    proof {
        assert(psv.take(ps.len() as int) =~= psv);
    }
    while k > 0
        invariant
            k <= ps.len(),
            keyed@ == key@,
            psv == ps.deep_view(),
            psv.len() == ps.len(),
            assoc_last(psv, key@) == assoc_last(psv.take(k as int), key@),
        decreases k,
    {
        proof {
            assert(psv.take(k as int).last() == psv[k - 1]);
            assert(psv.take(k as int).drop_last() =~= psv.take((k - 1) as int));
            assert(psv[k - 1].0 == ps[k - 1].0@);
            assert(psv[k - 1].1 == ps[k - 1].1@);
        }
        if ps[k - 1].0.eq(&keyed) {
            let v = ps[k - 1].1.clone();
            proof {
                assert(psv[k - 1].0 == key@);
                assert(assoc_last(psv.take(k as int), key@) == Some(psv[k - 1].1));
            }
            return Some(v);
        }
        proof {
            assert(psv[k - 1].0 != key@);
            assert(assoc_last(psv.take(k as int), key@) == assoc_last(
                psv.take((k - 1) as int),
                key@,
            ));
        }
        k = k - 1;
    }
    proof {
        assert(psv.take(0) =~= Seq::<(Seq<char>, Seq<char>)>::empty());
    }
    None
}

/// The lower-case form of an ASCII letter; other characters unchanged.
pub open spec fn ascii_lower(c: char) -> char {
    if 65 <= c as int && c as int <= 90 {
        ((c as int) + 32) as char
    } else {
        c
    }
}

/// The character-wise ASCII lower-casing of a text.
pub open spec fn lower_of(s: Seq<char>) -> Seq<char> {
    s.map_values(|c: char| ascii_lower(c))
}

/// Whether two texts are equal up to ASCII case.
fn eq_ignore_ascii_case(a: &str, b: &str) -> (r: bool)
    ensures
        r == (lower_of(a@) == lower_of(b@)),
{
    let na = a.unicode_len();
    let nb = b.unicode_len();
    if na != nb {
        proof {
            assert(lower_of(a@).len() == a@.len());
            assert(lower_of(b@).len() == b@.len());
        }
        return false;
    }
    let mut k: usize = 0;
    while k < na
        invariant
            k <= na,
            na == a@.len(),
            na == b@.len(),
            forall|m: int| 0 <= m < k ==> ascii_lower(a@[m]) == ascii_lower(b@[m]),
        decreases na - k,
    {
        let ca = a.get_char(k) as u32;
        let cb = b.get_char(k) as u32;
        let la: u32 = if 65 <= ca && ca <= 90 {
            ca + 32
        } else {
            ca
        };
        let lb: u32 = if 65 <= cb && cb <= 90 {
            cb + 32
        } else {
            cb
        };
        if la != lb {
            proof {
                assert(ascii_lower(a@[k as int]) != ascii_lower(b@[k as int]));
                assert(lower_of(a@)[k as int] != lower_of(b@)[k as int]);
            }
            return false;
        }
        proof {
            assert(ascii_lower(a@[k as int]) == ascii_lower(b@[k as int]));
        }
        k = k + 1;
    }
    proof {
        assert(lower_of(a@) =~= lower_of(b@));
    }
    true
}

/// The value of the first header whose name equals `name` up to ASCII
/// case, if any.
pub open spec fn header_lookup(hs: Seq<(Seq<char>, Seq<char>)>, name: Seq<char>) -> Option<
    Seq<char>,
>
    decreases hs.len(),
{
    if hs.len() == 0 {
        None
    } else if lower_of(hs[0].0) == lower_of(name) {
        Some(hs[0].1)
    } else {
        header_lookup(hs.drop_first(), name)
    }
}

/// Looks up a header by name, case-insensitively; the first occurrence
/// wins.
pub fn header_get(hs: &Vec<(String, String)>, name: &str) -> (r: Option<String>)
    ensures
        match r {
            Some(v) => header_lookup(hs.deep_view(), name@) == Some(v@),
            None => header_lookup(hs.deep_view(), name@) is None,
        },
{
    let ghost hsv = hs.deep_view();
    let mut k: usize = 0;
    proof {
        assert(hsv.skip(0) =~= hsv);
    }
    while k < hs.len()
        invariant
            k <= hs.len(),
            hsv == hs.deep_view(),
            hsv.len() == hs.len(),
            header_lookup(hsv, name@) == header_lookup(hsv.skip(k as int), name@),
        decreases hs.len() - k,
    {
        proof {
            assert(hsv.skip(k as int)[0] == hsv[k as int]);
            assert(hsv.skip(k as int).drop_first() =~= hsv.skip(k + 1));
            assert(hsv[k as int].0 == hs[k as int].0@);
            assert(hsv[k as int].1 == hs[k as int].1@);
        }
        if eq_ignore_ascii_case(hs[k].0.as_str(), name) {
            let v = hs[k].1.clone();
            return Some(v);
        }
        k = k + 1;
    }
    proof {
        assert(hsv.skip(hsv.len() as int) =~= Seq::<(Seq<char>, Seq<char>)>::empty());
    }
    None
}

/// The token carried by an `Authorization` header value: the text after a
/// leading `Bearer `, or the whole value when that prefix is absent.
pub open spec fn bearer_token(v: Seq<char>) -> Seq<char> {
    if v.len() >= 7 && v.take(7) == "Bearer "@ {
        v.skip(7)
    } else {
        v
    }
}

/// Strips a leading `Bearer ` from an `Authorization` header value.
pub fn bearer_of(v: &str) -> (t: String)
    ensures
        t@ == bearer_token(v@),
{
    let n = v.unicode_len();
    if n >= 7 {
        let head = v.substring_char(0, 7).to_owned();
        let marker = String::from_str("Bearer ");
        if head.eq(&marker) {
            proof {
                assert(v@.take(7) =~= v@.subrange(0, 7));
                assert(v@.skip(7) =~= v@.subrange(7, n as int));
            }
            return v.substring_char(7, n).to_owned();
        }
        proof {
            assert(v@.take(7) =~= v@.subrange(0, 7));
        }
    }
    v.to_owned()
}

/// Why a request was turned away before its handler ran, or that it was
/// let through with the identity the rules established.
pub enum GateOutcome {
    /// Every rule passed; the identity, if any, that authentication put on
    /// the request.
    Pass(Option<UserView>),
    /// A rule rejected the request with this terminal response.
    Reject(RejectionView),
}

/// The terminal response a rule rejection produces, over text models.
pub enum RejectionView {
    Unauthorized(Seq<char>),
    Forbidden(Seq<char>),
    PayloadTooLarge(Seq<char>),
}

} // verus!
