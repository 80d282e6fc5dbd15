//! Header and query parameter conditions of a route.

use vstd::prelude::*;
use vstd::string::*;
use crate::text::{eq_ignore_ascii_case, lower_text, text_eq};

verus! {

/// How a header value is compared.
#[derive(Debug, Clone, Copy, PartialEq, Eq, Structural)]
pub enum HeaderMatchType {
    /// The value is the expected text
    Exact,
    /// The expected text is a regular expression that matches the value
    RegularExpression,
}

/// A condition on a request header.
#[derive(Debug, Clone, PartialEq, Eq)]
pub struct HeaderMatch {
    /// Header name, compared without regard to letter case
    pub name: String,
    /// Expected value
    pub value: String,
    /// How the value is compared
    pub match_type: HeaderMatchType,
}

/// How a query parameter value is compared.
#[derive(Debug, Clone, Copy, PartialEq, Eq, Structural)]
pub enum QueryParamMatchType {
    /// The value is the expected text
    Exact,
    /// The expected text is a regular expression that matches the value
    RegularExpression,
}

/// A condition on a query parameter.
#[derive(Debug, Clone, PartialEq, Eq)]
pub struct QueryParamMatch {
    /// Parameter name, compared letter by letter
    pub name: String,
    /// Expected value
    pub value: String,
    /// How the value is compared
    pub match_type: QueryParamMatchType,
}

/// Names and values over plain texts.
pub open spec fn texts(pairs: Seq<(&str, &str)>) -> Seq<(Seq<char>, Seq<char>)> {
    Seq::new(pairs.len(), |i: int| (pairs[i].0@, pairs[i].1@))
}

/// Whether a regular expression matches a text; `None` where it does not compile.
pub uninterp spec fn regex_verdict(pattern: Seq<char>, text: Seq<char>) -> Option<bool>;

/// `regex::Regex::new` and `Regex::is_match` with default settings: whether the expression
/// compiles, and whether it then matches somewhere in the text, follow from the two texts.
#[verifier::external_body]
pub(crate) fn regex_match(pattern: &str, text: &str) -> (r: Option<bool>)
    ensures
        r == regex_verdict(pattern@, text@),
{
    regex::Regex::new(pattern).ok().map(|re| re.is_match(text))
}

/// Whether a value meets a condition, given what the expected text finds in it as a regular
/// expression: an expression that does not compile meets nothing.
pub open spec fn value_meets(
    is_regex: bool,
    expected: Seq<char>,
    actual: Seq<char>,
    verdict: Option<bool>,
) -> bool {
    if is_regex {
        verdict == Some(true)
    } else {
        actual == expected
    }
}

/// Whether a value meets a condition, given the outcome of the regular expression.
pub fn value_accepted(is_regex: bool, expected: &str, actual: &str, verdict: Option<bool>) -> (r: bool)
    ensures
        r == value_meets(is_regex, expected@, actual@, verdict),
{
    if is_regex {
        match verdict {
            Some(b) => b,
            None => false,
        }
    } else {
        text_eq(actual, expected)
    }
}

/// Whether one request header meets a condition.
pub open spec fn header_meets(m: HeaderMatch, name: Seq<char>, value: Seq<char>) -> bool {
    &&& lower_text(name) == lower_text(m.name@)
    &&& value_meets(
        m.match_type == HeaderMatchType::RegularExpression,
        m.value@,
        value,
        regex_verdict(m.value@, value),
    )
}

/// Whether request headers meet all conditions: each one is met by some header.
pub open spec fn headers_meet(matches: Seq<HeaderMatch>, headers: Seq<(Seq<char>, Seq<char>)>) -> bool {
    forall|i: int|
        0 <= i < matches.len() ==> some_header_meets(#[trigger] matches[i], headers)
}

/// Whether some request header meets a condition.
pub open spec fn some_header_meets(m: HeaderMatch, headers: Seq<(Seq<char>, Seq<char>)>) -> bool {
    exists|j: int| 0 <= j < headers.len() && header_meets(m, (#[trigger] headers[j]).0, headers[j].1)
}

/// Whether one query parameter meets a condition.
pub open spec fn query_param_meets(m: QueryParamMatch, name: Seq<char>, value: Seq<char>) -> bool {
    &&& name == m.name@
    &&& value_meets(
        m.match_type == QueryParamMatchType::RegularExpression,
        m.value@,
        value,
        regex_verdict(m.value@, value),
    )
}

/// Whether some query parameter meets a condition.
pub open spec fn some_query_param_meets(m: QueryParamMatch, params: Seq<(Seq<char>, Seq<char>)>) -> bool {
    exists|j: int|
        0 <= j < params.len() && query_param_meets(m, (#[trigger] params[j]).0, params[j].1)
}

/// Whether query parameters meet all conditions: each one is met by some parameter.
pub open spec fn query_params_meet(matches: Seq<QueryParamMatch>, params: Seq<(Seq<char>, Seq<char>)>) -> bool {
    forall|i: int|
        0 <= i < matches.len() ==> some_query_param_meets(#[trigger] matches[i], params)
}

/// Whether a value meets a condition.
fn value_ok(is_regex: bool, expected: &str, actual: &str) -> (r: bool)
    ensures
        r == value_meets(is_regex, expected@, actual@, regex_verdict(expected@, actual@)),
{
    if is_regex {
        let verdict = regex_match(expected, actual);
        value_accepted(true, expected, actual, verdict)
    } else {
        value_accepted(false, expected, actual, None)
    }
}

/// Whether some request header meets a condition.
fn any_header(m: &HeaderMatch, headers: &[(&str, &str)]) -> (r: bool)
    ensures
        r == some_header_meets(*m, texts(headers@)),
{
    let is_regex: bool = m.match_type == HeaderMatchType::RegularExpression;
    let mut j: usize = 0;
    while j < headers.len()
        invariant
            j <= headers.len(),
            is_regex == (m.match_type == HeaderMatchType::RegularExpression),
            forall|k: int|
                0 <= k < j ==> !header_meets(*m, (#[trigger] texts(headers@)[k]).0, texts(headers@)[k].1),
        decreases headers.len() - j,
    {
        let h = headers[j];
        if eq_ignore_ascii_case(h.0, m.name.as_str()) && value_ok(is_regex, m.value.as_str(), h.1) {
            assert(header_meets(*m, texts(headers@)[j as int].0, texts(headers@)[j as int].1));
            return true;
        }
        j += 1;
    }
    false
}

/// Whether request headers meet all conditions of a route.
pub fn headers_match(header_matches: &[HeaderMatch], request_headers: &[(&str, &str)]) -> (r: bool)
    ensures
        r == headers_meet(header_matches@, texts(request_headers@)),
{
    let mut i: usize = 0;
    while i < header_matches.len()
        invariant
            i <= header_matches.len(),
            forall|k: int|
                0 <= k < i ==> some_header_meets(#[trigger] header_matches@[k], texts(request_headers@)),
        decreases header_matches.len() - i,
    {
        if !any_header(&header_matches[i], request_headers) {
            assert(!some_header_meets(header_matches@[i as int], texts(request_headers@)));
            return false;
        }
        i += 1;
    }
    true
}

/// Whether some query parameter meets a condition.
fn any_query_param(m: &QueryParamMatch, params: &[(&str, &str)]) -> (r: bool)
    ensures
        r == some_query_param_meets(*m, texts(params@)),
{
    let is_regex: bool = m.match_type == QueryParamMatchType::RegularExpression;
    let mut j: usize = 0;
    while j < params.len()
        invariant
            j <= params.len(),
            is_regex == (m.match_type == QueryParamMatchType::RegularExpression),
            forall|k: int|
                0 <= k < j ==> !query_param_meets(*m, (#[trigger] texts(params@)[k]).0, texts(params@)[k].1),
        decreases params.len() - j,
    {
        let p = params[j];
        if text_eq(p.0, m.name.as_str()) && value_ok(is_regex, m.value.as_str(), p.1) {
            assert(query_param_meets(*m, texts(params@)[j as int].0, texts(params@)[j as int].1));
            return true;
        }
        j += 1;
    }
    false
}

/// Whether query parameters meet all conditions of a route.
pub fn query_params_match(
    query_param_matches: &[QueryParamMatch],
    request_query_params: &[(&str, &str)],
) -> (r: bool)
    ensures
        r == query_params_meet(query_param_matches@, texts(request_query_params@)),
{
    let mut i: usize = 0;
    while i < query_param_matches.len()
        invariant
            i <= query_param_matches.len(),
            forall|k: int|
                0 <= k < i ==> some_query_param_meets(
                    #[trigger] query_param_matches@[k],
                    texts(request_query_params@),
                ),
        decreases query_param_matches.len() - i,
    {
        if !any_query_param(&query_param_matches[i], request_query_params) {
            assert(!some_query_param_meets(
                query_param_matches@[i as int],
                texts(request_query_params@),
            ));
            return false;
        }
        i += 1;
    }
    true
}

/// Whether two characters are the same but for the case of ASCII letters.
pub open spec fn same_letter(a: char, b: char) -> bool {
    ||| a == b
    ||| 65 <= a as u32 <= 90 && b as u32 == a as u32 + 32
    ||| 65 <= b as u32 <= 90 && a as u32 == b as u32 + 32
}

/// Whether a header meets a condition: it has the name of the condition, in whatever letter case, and
/// its value is the expected one, or one that the expected expression matches.
pub open spec fn meets_header(m: HeaderMatch, header: (Seq<char>, Seq<char>)) -> bool {
    &&& header.0.len() == m.name@.len()
    &&& forall|i: int| 0 <= i < header.0.len() ==> same_letter(#[trigger] header.0[i], m.name@[i])
    &&& match m.match_type {
        HeaderMatchType::Exact => header.1 == m.value@,
        HeaderMatchType::RegularExpression => regex_verdict(m.value@, header.1) == Some(true),
    }
}

/// Whether a query parameter meets a condition: it has exactly the name of the condition, and its
/// value is the expected one, or one that the expected expression matches.
pub open spec fn meets_param(m: QueryParamMatch, param: (Seq<char>, Seq<char>)) -> bool {
    &&& param.0 == m.name@
    &&& match m.match_type {
        QueryParamMatchType::Exact => param.1 == m.value@,
        QueryParamMatchType::RegularExpression => regex_verdict(m.value@, param.1) == Some(true),
    }
}

proof fn lemma_meets_header(m: HeaderMatch, header: (Seq<char>, Seq<char>))
    ensures
        meets_header(m, header) == header_meets(m, header.0, header.1),
{
    let a = header.0;
    let b = m.name@;
    if lower_text(a) == lower_text(b) {
        assert(a.len() == b.len()) by {
            assert(lower_text(a).len() == a.len());
        }
        assert forall|i: int| 0 <= i < a.len() implies same_letter(#[trigger] a[i], b[i]) by {
            assert(lower_text(a)[i] == lower_text(b)[i]);
        }
    }
    if a.len() == b.len() && forall|i: int|
        0 <= i < a.len() ==> same_letter(#[trigger] a[i], b[i]) {
        assert forall|i: int| 0 <= i < a.len() implies lower_text(a)[i] == lower_text(b)[i] by {
            assert(same_letter(a[i], b[i]));
        }
        assert(lower_text(a) =~= lower_text(b));
    }
}

/// Whether some header meets a condition.
pub open spec fn met_by_header(m: HeaderMatch, headers: Seq<(Seq<char>, Seq<char>)>) -> bool {
    exists|j: int| 0 <= j < headers.len() && meets_header(m, #[trigger] headers[j])
}

/// Whether some query parameter meets a condition.
pub open spec fn met_by_param(m: QueryParamMatch, params: Seq<(Seq<char>, Seq<char>)>) -> bool {
    exists|j: int| 0 <= j < params.len() && meets_param(m, #[trigger] params[j])
}

/// Header conditions are met exactly if each one is met by some header. So conditions that are met
/// stay so when more headers come, and no condition at all is always met.
pub proof fn lemma_headers_met(
    matches: Seq<HeaderMatch>,
    headers: Seq<(Seq<char>, Seq<char>)>,
    more: Seq<(Seq<char>, Seq<char>)>,
)
    ensures
        headers_meet(matches, headers) <==> forall|c: int|
            0 <= c < matches.len() ==> met_by_header(#[trigger] matches[c], headers),
        headers_meet(matches, headers) ==> headers_meet(matches, headers + more),
        matches.len() == 0 ==> headers_meet(matches, headers),
{
    assert forall|m: HeaderMatch| met_by_header(m, headers) == some_header_meets(m, headers) by {
        if met_by_header(m, headers) {
            let j = choose|j: int| 0 <= j < headers.len() && meets_header(m, #[trigger] headers[j]);
            lemma_meets_header(m, headers[j]);
        }
        if some_header_meets(m, headers) {
            let j = choose|j: int|
                0 <= j < headers.len() && header_meets(m, (#[trigger] headers[j]).0, headers[j].1);
            lemma_meets_header(m, headers[j]);
        }
    }
    if headers_meet(matches, headers) {
        assert forall|c: int| 0 <= c < matches.len() implies some_header_meets(
            #[trigger] matches[c],
            headers + more,
        ) by {
            let j = choose|j: int|
                0 <= j < headers.len() && header_meets(
                    matches[c],
                    (#[trigger] headers[j]).0,
                    headers[j].1,
                );
            assert((headers + more)[j] == headers[j]);
        }
    }
}

/// Query parameter conditions are met exactly if each one is met by some parameter. So conditions
/// that are met stay so when more parameters come, and no condition at all is always met.
pub proof fn lemma_params_met(
    matches: Seq<QueryParamMatch>,
    params: Seq<(Seq<char>, Seq<char>)>,
    more: Seq<(Seq<char>, Seq<char>)>,
)
    ensures
        query_params_meet(matches, params) <==> forall|c: int|
            0 <= c < matches.len() ==> met_by_param(#[trigger] matches[c], params),
        query_params_meet(matches, params) ==> query_params_meet(matches, params + more),
        matches.len() == 0 ==> query_params_meet(matches, params),
{
    assert forall|m: QueryParamMatch| met_by_param(m, params) == some_query_param_meets(
        m,
        params,
    ) by {
        if met_by_param(m, params) {
            let j = choose|j: int| 0 <= j < params.len() && meets_param(m, #[trigger] params[j]);
            assert(query_param_meets(m, params[j].0, params[j].1));
        }
        if some_query_param_meets(m, params) {
            let j = choose|j: int|
                0 <= j < params.len() && query_param_meets(m, (#[trigger] params[j]).0, params[j].1);
            assert(meets_param(m, params[j]));
        }
    }
    if query_params_meet(matches, params) {
        assert forall|c: int| 0 <= c < matches.len() implies some_query_param_meets(
            #[trigger] matches[c],
            params + more,
        ) by {
            let j = choose|j: int|
                0 <= j < params.len() && query_param_meets(
                    matches[c],
                    (#[trigger] params[j]).0,
                    params[j].1,
                );
            assert((params + more)[j] == params[j]);
        }
    }
}

/// Pairs are matched as they came: each with its own name and value, none left out.
pub proof fn lemma_pairs_are_taken_whole(pairs: Seq<(&str, &str)>, i: int)
    requires
        0 <= i < pairs.len(),
    ensures
        texts(pairs).len() == pairs.len(),
        texts(pairs)[i].0 == pairs[i].0@,
        texts(pairs)[i].1 == pairs[i].1@,
{
}

} // verus!
