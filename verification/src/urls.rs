//! The crawler's view of the `url` crate: whether a string parses as a
//! URL, the host it names, and resolution of a relative reference
//! against a base.  Both operations are pure functions of their string
//! arguments, so their results are given names that the rest of the
//! library states its contracts over.
use vstd::prelude::*;

verus! {

/// What `url::Url::parse` followed by `url::Url::domain` yields for a
/// URL string: `None` when the string does not parse, otherwise the
/// domain name of the parsed URL, if it has one.
pub uninterp spec fn url_host(s: Seq<char>) -> Option<Option<Seq<char>>>;

/// What parsing a base URL, joining a reference against it, dropping the
/// fragment and serializing yields: `None` when the base does not parse
/// or the join fails, otherwise the absolute URL string and its domain.
pub uninterp spec fn url_join(base: Seq<char>, href: Seq<char>) -> Option<(Seq<char>, Option<Seq<char>>)>;

/// The view of an optional host name.
pub open spec fn opt_str_view(o: Option<String>) -> Option<Seq<char>> {
    match o {
        Some(s) => Some(s@),
        None => None,
    }
}

/// The view of a parse-then-domain result.
pub open spec fn host_result_view(r: Option<Option<String>>) -> Option<Option<Seq<char>>> {
    match r {
        Some(h) => Some(opt_str_view(h)),
        None => None,
    }
}

/// The view of a resolution result.
pub open spec fn join_result_view(r: Option<(String, Option<String>)>) -> Option<(Seq<char>, Option<Seq<char>>)> {
    match r {
        Some((u, h)) => Some((u@, opt_str_view(h))),
        None => None,
    }
}

/// Relies on `url::Url::parse` and `url::Url::domain`: whether a string
/// parses as a URL, and which domain the parsed URL carries, depend on
/// the string alone.
#[verifier::external_body]
pub(crate) fn host_of(s: &str) -> (r: Option<Option<String>>)
    ensures
        host_result_view(r) == url_host(s@),
{
    match url::Url::parse(s) {
        Ok(u) => Some(u.domain().map(|d| d.to_owned())),
        Err(_) => None,
    }
}

/// Relies on `url::Url::parse`, `url::Url::join`, `url::Url::set_fragment`
/// and `url::Url::as_str`: resolving a reference against a base URL,
/// removing the fragment and serializing the result, together with that
/// result's domain, depend on the two strings alone.
#[verifier::external_body]
pub(crate) fn resolve_link(base: &str, href: &str) -> (r: Option<(String, Option<String>)>)
    ensures
        join_result_view(r) == url_join(base@, href@),
{
    match url::Url::parse(base) {
        Ok(b) => match b.join(href) {
            Ok(mut u) => {
                u.set_fragment(None);
                let host = u.domain().map(|d| d.to_owned());
                Some((u.as_str().to_owned(), host))
            },
            Err(_) => None,
        },
        Err(_) => None,
    }
}

/// Whether two optional host names name the same host: both absent, or
/// both present and equal.
pub open spec fn same_host(a: Option<Seq<char>>, b: Option<Seq<char>>) -> bool {
    match (a, b) {
        (Some(x), Some(y)) => x == y,
        (None, None) => true,
        _ => false,
    }
}

/// Whether two optional host names are the same.
pub fn opt_host_eq(a: &Option<String>, b: &Option<String>) -> (r: bool)
    ensures
        r == same_host(opt_str_view(*a), opt_str_view(*b)),
{
    match a {
        Some(x) => match b {
            Some(y) => *x == *y,
            None => false,
        },
        None => b.is_none(),
    }
}

} // verus!
