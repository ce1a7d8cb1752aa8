//! Matching request paths against route patterns.
//!
//! A pattern is a path whose segments are literals or named placeholders
//! such as `{name}`; a placeholder segment matches any single path segment
//! and captures its literal value under the placeholder's name.

use vstd::prelude::*;
use vstd::string::StrSliceExecFns;
use vstd::string::StringExecFns;

verus! {

/// The distance to the first occurrence of `sep` in `s`, or the length of
/// `s` when `sep` does not occur.
pub open spec fn first_sep(s: Seq<char>, sep: char) -> nat
    decreases s.len(),
{
    if s.len() == 0 {
        0
    } else if s[0] == sep {
        0
    } else {
        1 + first_sep(s.drop_first(), sep)
    }
}

/// The segments of `s`, split on `sep`; always at least one segment, and
/// empty segments are kept.
pub open spec fn split_on(s: Seq<char>, sep: char) -> Seq<Seq<char>>
    decreases s.len(),
{
    let f = first_sep(s, sep) as int;
    if f >= s.len() {
        seq![s]
    } else {
        seq![s.take(f)] + split_on(s.skip(f + 1), sep)
    }
}

/// `first_sep` points at the first separator: nothing before it is one,
/// and it is one unless it is the end of the text.
pub proof fn lemma_first_sep_charact(s: Seq<char>, sep: char)
    ensures
        first_sep(s, sep) <= s.len(),
        forall|k: int| 0 <= k < first_sep(s, sep) ==> s[k] != sep,
        first_sep(s, sep) < s.len() ==> s[first_sep(s, sep) as int] == sep,
    decreases s.len(),
{
    if s.len() > 0 && s[0] != sep {
        lemma_first_sep_charact(s.drop_first(), sep);
        assert forall|k: int| 0 <= k < first_sep(s, sep) implies s[k] != sep by {
            if k > 0 {
                assert(s[k] == s.drop_first()[k - 1]);
            }
        }
    }
}

/// Conversely, a position with no separator before it and a separator (or
/// the end) at it is where `first_sep` points.
pub proof fn lemma_first_sep_at(s: Seq<char>, sep: char, j: int)
    requires
        0 <= j <= s.len(),
        forall|k: int| 0 <= k < j ==> s[k] != sep,
        j < s.len() ==> s[j] == sep,
    ensures
        first_sep(s, sep) == j,
{
    lemma_first_sep_charact(s, sep);
    let f = first_sep(s, sep) as int;
    if f < j {
        assert(s[f] != sep);
    }
    if j < f {
        assert(s[j] != sep);
    }
}

/// Splits `s` into its `sep`-separated segments.
pub fn split_on_char(s: &str, sep: char) -> (r: Vec<String>)
    ensures
        r.deep_view() == split_on(s@, sep),
{
    let n = s.unicode_len();
    let mut parts: Vec<String> = Vec::new();
    let mut start: usize = 0;
    proof {
        assert(s@.skip(0) =~= s@);
        assert(parts.deep_view() + split_on(s@, sep) =~= split_on(s@, sep));
    }
    loop
        invariant
            start <= n,
            n == s@.len(),
            split_on(s@, sep) == parts.deep_view() + split_on(s@.skip(start as int), sep),
        decreases n - start + 1,
    {
        let mut j: usize = start;
        while j < n && s.get_char(j) != sep
            invariant
                start <= j <= n,
                n == s@.len(),
                forall|k: int| start <= k < j ==> s@[k] != sep,
            decreases n - j,
        {
            j = j + 1;
        }
        let seg = s.substring_char(start, j).to_owned();
        let ghost rest = s@.skip(start as int);
        proof {
            lemma_first_sep_at(rest, sep, j - start);
            assert(rest.take(j - start) =~= s@.subrange(start as int, j as int));
        }
        let ghost pre = parts.deep_view();
        parts.push(seg);
        proof {
            assert(parts.deep_view() =~= pre.push(s@.subrange(start as int, j as int)));
        }
        if j < n {
            proof {
                assert(rest.skip(j - start + 1) =~= s@.skip(j + 1));
                assert(split_on(rest, sep) == seq![rest.take(j - start)] + split_on(
                    s@.skip(j + 1),
                    sep,
                ));
                assert(pre + (seq![s@.subrange(start as int, j as int)] + split_on(
                    s@.skip(j + 1),
                    sep,
                )) =~= parts.deep_view() + split_on(s@.skip(j + 1), sep));
            }
            start = j + 1;
        } else {
            proof {
                assert(rest.take(j - start) =~= rest);
                assert(split_on(rest, sep) == seq![rest]);
                assert(pre + seq![rest] =~= parts.deep_view());
                assert(split_on(s@, sep) =~= parts.deep_view() + Seq::<Seq<char>>::empty());
                assert(parts.deep_view() + Seq::<Seq<char>>::empty() =~= parts.deep_view());
            }
            return parts;
        }
    }
}

/// Whether a pattern segment is a named placeholder, `{name}`.
pub open spec fn is_placeholder(seg: Seq<char>) -> bool {
    seg.len() >= 2 && seg[0] == '{' && seg[seg.len() - 1] == '}'
}

/// The name of a placeholder segment, without its braces.
pub open spec fn placeholder_name(seg: Seq<char>) -> Seq<char> {
    seg.subrange(1, seg.len() - 1)
}

/// Whether one pattern segment accepts one path segment.
pub open spec fn seg_matches(pat_seg: Seq<char>, path_seg: Seq<char>) -> bool {
    is_placeholder(pat_seg) || pat_seg == path_seg
}

/// Whether `pattern` matches `path`: the same number of segments, each
/// accepted in place.
pub open spec fn route_matches(pattern: Seq<char>, path: Seq<char>) -> bool {
    let ps = split_on(pattern, '/');
    let qs = split_on(path, '/');
    ps.len() == qs.len() && forall|k: int| 0 <= k < ps.len() ==> seg_matches(ps[k], qs[k])
}

/// The placeholder captures of a match, in pattern order, from segment `k`
/// on: each placeholder's name paired with the path segment it accepted.
pub open spec fn captured_from(ps: Seq<Seq<char>>, qs: Seq<Seq<char>>, k: int) -> Seq<
    (Seq<char>, Seq<char>),
>
    decreases ps.len() - k,
{
    if k < 0 || k >= ps.len() || ps.len() != qs.len() {
        Seq::<(Seq<char>, Seq<char>)>::empty()
    } else if is_placeholder(ps[k]) {
        seq![(placeholder_name(ps[k]), qs[k])] + captured_from(ps, qs, k + 1)
    } else {
        captured_from(ps, qs, k + 1)
    }
}

/// The placeholder captures of matching `pattern` against `path`.
pub open spec fn captures_of(pattern: Seq<char>, path: Seq<char>) -> Seq<(Seq<char>, Seq<char>)> {
    captured_from(split_on(pattern, '/'), split_on(path, '/'), 0)
}

/// Whether `seg` is a placeholder segment.
fn seg_is_placeholder(seg: &String) -> (r: bool)
    ensures
        r == is_placeholder(seg@),
{
    let n = seg.as_str().unicode_len();
    n >= 2 && seg.as_str().get_char(0) == '{' && seg.as_str().get_char(n - 1) == '}'
}

/// Decides whether `pattern` matches `path`, and yields the placeholder
/// captures of the match.
pub fn match_path(pattern: &str, path: &str) -> (r: Option<Vec<(String, String)>>)
    ensures
        match r {
            Some(params) => route_matches(pattern@, path@) && params.deep_view() == captures_of(
                pattern@,
                path@,
            ),
            None => !route_matches(pattern@, path@),
        },
{
    let ps = split_on_char(pattern, '/');
    let qs = split_on_char(path, '/');
    if ps.len() != qs.len() {
        return None;
    }
    let ghost psv = ps.deep_view();
    let ghost qsv = qs.deep_view();
    let mut params: Vec<(String, String)> = Vec::new();
    let mut k: usize = 0;
    while k < ps.len()
        invariant
            k <= ps.len(),
            ps.len() == qs.len(),
            psv == ps.deep_view(),
            qsv == qs.deep_view(),
            psv == split_on(pattern@, '/'),
            qsv == split_on(path@, '/'),
            psv.len() == ps.len(),
            qsv.len() == qs.len(),
            forall|m: int| 0 <= m < k ==> seg_matches(psv[m], qsv[m]),
            captured_from(psv, qsv, 0) == params.deep_view() + captured_from(psv, qsv, k as int),
        decreases ps.len() - k,
    {
        let pat_seg = &ps[k];
        let path_seg = &qs[k];
        if seg_is_placeholder(pat_seg) {
            let name = pat_seg.as_str().substring_char(
                1,
                pat_seg.as_str().unicode_len() - 1,
            ).to_owned();
            let value = path_seg.as_str().to_owned();
            let ghost pre = params.deep_view();
            params.push((name, value));
            proof {
                assert(psv[k as int] == ps[k as int]@);
                assert(qsv[k as int] == qs[k as int]@);
                assert(params.deep_view() =~= pre.push(
                    (placeholder_name(psv[k as int]), qsv[k as int]),
                ));
                assert(captured_from(psv, qsv, k as int) == seq![
                    (placeholder_name(psv[k as int]), qsv[k as int]),
                ] + captured_from(psv, qsv, k + 1));
                assert(pre + (seq![(placeholder_name(psv[k as int]), qsv[k as int])]
                    + captured_from(psv, qsv, k + 1)) =~= params.deep_view() + captured_from(
                    psv,
                    qsv,
                    k + 1,
                ));
            }
        } else if !pat_seg.eq(path_seg) {
            proof {
                assert(psv[k as int] == ps[k as int]@);
                assert(qsv[k as int] == qs[k as int]@);
                assert(!seg_matches(psv[k as int], qsv[k as int]));
                assert(!route_matches(pattern@, path@)) by {
                    assert(split_on(pattern@, '/') == psv);
                    assert(split_on(path@, '/') == qsv);
                    assert(!seg_matches(psv[k as int], qsv[k as int]));
                }
            }
            return None;
        } else {
            proof {
                assert(psv[k as int] == ps[k as int]@);
                assert(qsv[k as int] == qs[k as int]@);
                assert(seg_matches(psv[k as int], qsv[k as int]));
            }
        }
        k = k + 1;
    }
    proof {
        assert(captured_from(psv, qsv, ps.len() as int) == Seq::<(Seq<char>, Seq<char>)>::empty());
        assert(params.deep_view() + Seq::<(Seq<char>, Seq<char>)>::empty() =~= params.deep_view());
    }
    Some(params)
}

} // verus!
