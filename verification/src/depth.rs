//! Link depth: the number of non-empty path segments of a URL, relative
//! to the domain root.  The seed of a crawl has depth 0, a page directly
//! under the root has depth 1, and query strings and fragments add
//! nothing.
use vstd::prelude::*;
use crate::urls::{host_of, opt_host_eq, url_host, opt_str_view};

verus! {

/// Whether the scheme separator `://` stands at position `j`.
pub open spec fn sep_at(s: Seq<char>, j: int) -> bool {
    &&& 0 <= j
    &&& j + 3 <= s.len()
    &&& s[j] == ':'
    &&& s[j + 1] == '/'
    &&& s[j + 2] == '/'
}

/// The first position at or after `i` where `://` stands.
pub open spec fn find_sep_from(s: Seq<char>, i: int) -> Option<int>
    decreases s.len() - i,
{
    if i < 0 || i + 3 > s.len() {
        None
    } else if sep_at(s, i) {
        Some(i)
    } else {
        find_sep_from(s, i + 1)
    }
}

/// The first position in `[i, end)` holding `/`.
pub open spec fn find_slash_before(s: Seq<char>, i: int, end: int) -> Option<int>
    decreases end - i,
{
    if i < 0 || i >= end || i >= s.len() {
        None
    } else if s[i] == '/' {
        Some(i)
    } else {
        find_slash_before(s, i + 1, end)
    }
}

/// The first position at or after `i` where the query or the fragment
/// begins.
pub open spec fn find_stop_from(s: Seq<char>, i: int) -> Option<int>
    decreases s.len() - i,
{
    if i < 0 || i >= s.len() {
        None
    } else if s[i] == '?' || s[i] == '#' {
        Some(i)
    } else {
        find_stop_from(s, i + 1)
    }
}

/// The path region of a URL string: what stands between the first `/`
/// after the scheme-and-host part and the start of the query or
/// fragment.  A URL without a scheme separator or without a path slash
/// has an empty path region.
pub open spec fn path_region(s: Seq<char>) -> Seq<char> {
    match find_sep_from(s, 0) {
        None => Seq::empty(),
        Some(j) => {
            let e = match find_stop_from(s, j + 3) {
                Some(q) => q,
                None => s.len() as int,
            };
            match find_slash_before(s, j + 3, e) {
                None => Seq::empty(),
                Some(p) => s.subrange(p, e),
            }
        },
    }
}

/// The number of non-empty `/`-separated segments.
pub open spec fn seg_count(s: Seq<char>) -> nat
    decreases s.len(),
{
    if s.len() == 0 {
        0
    } else {
        let r = seg_count(s.drop_last());
        if s.last() != '/' && (s.len() == 1 || s[s.len() - 2] == '/') {
            r + 1
        } else {
            r
        }
    }
}

/// The depth of a URL: how many non-empty path segments it has.
pub open spec fn depth_of(s: Seq<char>) -> nat {
    seg_count(path_region(s))
}

/// The depth the crawler ascribes to a URL against a base: the path
/// segment count when the URL parses and names exactly the base's host,
/// and 0 otherwise.
pub open spec fn calc_depth_spec(u: Seq<char>, base_host: Option<Seq<char>>) -> nat {
    if url_host(u) == Some(base_host) {
        depth_of(u)
    } else {
        0
    }
}

/// Skipping positions where no separator stands does not change the
/// first one found.
proof fn lemma_sep_skip(s: Seq<char>, i: int, k: int)
    requires
        0 <= i <= k,
        forall|j: int| i <= j < k ==> !sep_at(s, j),
    ensures
        find_sep_from(s, i) == find_sep_from(s, k),
    decreases k - i,
{
    if i < k {
        lemma_sep_skip(s, i + 1, k);
    }
}

/// Skipping positions that hold no slash does not change the first one
/// found.
proof fn lemma_slash_skip(s: Seq<char>, i: int, k: int, end: int)
    requires
        0 <= i <= k,
        forall|j: int| i <= j < k ==> s[j] != '/',
        k <= end,
    ensures
        find_slash_before(s, i, end) == find_slash_before(s, k, end),
    decreases k - i,
{
    if i < k {
        lemma_slash_skip(s, i + 1, k, end);
    }
}

/// Skipping positions that hold neither `?` nor `#` does not change the
/// first one found.
proof fn lemma_stop_skip(s: Seq<char>, i: int, k: int)
    requires
        0 <= i <= k,
        forall|j: int| i <= j < k ==> s[j] != '?' && s[j] != '#',
    ensures
        find_stop_from(s, i) == find_stop_from(s, k),
    decreases k - i,
{
    if i < k {
        lemma_stop_skip(s, i + 1, k);
    }
}

/// The number of non-empty path segments of a URL string.
pub fn url_depth(url: &str) -> (d: usize)
    ensures
        d as nat == depth_of(url@),
{
    let n: usize = url.unicode_len();
    if n < 3 {
        proof {
            assert(find_sep_from(url@, 0) is None);
            assert(path_region(url@) =~= Seq::<char>::empty());
        }
        return 0;
    }
    // find the scheme separator
    let mut i: usize = 0;
    let mut sep: Option<usize> = None;
    while i <= n - 3 && sep.is_none()
        invariant
            3 <= n,
            i <= n,
            n == url@.len(),
            match sep {
                Some(j) => j == i && sep_at(url@, j as int) && (forall|k: int|
                    0 <= k < j ==> !sep_at(url@, k)),
                None => forall|k: int| 0 <= k < i ==> !sep_at(url@, k),
            },
        decreases n - i + (if sep is None { 1int } else { 0int }),
    {
        if url.get_char(i) == ':' && url.get_char(i + 1) == '/' && url.get_char(i + 2) == '/' {
            sep = Some(i);
        } else {
            i = i + 1;
        }
    }
    proof {
        if sep is None {
            assert(forall|k: int| 0 <= k < i ==> !sep_at(url@, k));
            assert(forall|k: int| i <= k ==> !sep_at(url@, k)) by {
                assert(forall|k: int| k > n - 3 ==> !sep_at(url@, k));
            }
        }
    }
    let j: usize = match sep {
        Some(j) => j,
        None => {
            proof {
                lemma_sep_skip(url@, 0, i as int);
                assert(find_sep_from(url@, 0) is None);
                assert(path_region(url@) =~= Seq::<char>::empty());
            }
            return 0;
        },
    };
    proof {
        lemma_sep_skip(url@, 0, j as int);
        assert(find_sep_from(url@, 0) == Some(j as int));
    }
    // find where the query or fragment begins
    let mut q: usize = j + 3;
    let mut stop: Option<usize> = None;
    while q < n && stop.is_none()
        invariant
            j + 3 <= q <= n,
            n == url@.len(),
            match stop {
                Some(e) => e == q && e < n && (url@[e as int] == '?' || url@[e as int] == '#')
                    && (forall|k: int| j + 3 <= k < e ==> url@[k] != '?' && url@[k] != '#'),
                None => forall|k: int| j + 3 <= k < q ==> url@[k] != '?' && url@[k] != '#',
            },
        decreases n - q + (if stop is None { 1int } else { 0int }),
    {
        let c = url.get_char(q);
        if c == '?' || c == '#' {
            stop = Some(q);
        } else {
            q = q + 1;
        }
    }
    let e: usize = match stop {
        Some(e) => e,
        None => n,
    };
    proof {
        lemma_stop_skip(url@, j + 3, e as int);
        match stop {
            Some(_) => assert(find_stop_from(url@, j + 3) == Some(e as int)),
            None => assert(find_stop_from(url@, j + 3) is None),
        }
    }
    // find the first slash of the path
    let mut p: usize = j + 3;
    let mut slash: Option<usize> = None;
    while p < e && slash.is_none()
        invariant
            j + 3 <= p <= e <= n,
            n == url@.len(),
            match slash {
                Some(x) => x == p && x < e && url@[x as int] == '/' && (forall|k: int|
                    j + 3 <= k < x ==> url@[k] != '/'),
                None => forall|k: int| j + 3 <= k < p ==> url@[k] != '/',
            },
        decreases e - p + (if slash is None { 1int } else { 0int }),
    {
        if url.get_char(p) == '/' {
            slash = Some(p);
        } else {
            p = p + 1;
        }
    }
    let p: usize = match slash {
        Some(x) => x,
        None => {
            proof {
                lemma_slash_skip(url@, j + 3, e as int, e as int);
                assert(find_slash_before(url@, j + 3, e as int) is None);
                assert(path_region(url@) =~= Seq::<char>::empty());
            }
            return 0;
        },
    };
    proof {
        lemma_slash_skip(url@, j + 3, p as int, e as int);
        assert(find_slash_before(url@, j + 3, e as int) == Some(p as int));
        assert(path_region(url@) == url@.subrange(p as int, e as int));
    }
    // count non-empty segments in the path region
    let ghost path = url@.subrange(p as int, e as int);
    let mut cnt: usize = 0;
    let mut k: usize = p;
    while k < e
        invariant
            p <= k <= e <= n,
            n == url@.len(),
            cnt <= k - p,
            cnt as nat == seg_count(url@.subrange(p as int, k as int)),
        decreases e - k,
    {
        let c = url.get_char(k);
        let starts = if k == p {
            true
        } else {
            url.get_char(k - 1) == '/'
        };
        proof {
            let pre = url@.subrange(p as int, k as int);
            let ext = url@.subrange(p as int, k + 1 as int);
            assert(ext.drop_last() =~= pre);
            assert(ext.last() == url@[k as int]);
            if k > p {
                assert(ext[ext.len() - 2] == url@[k - 1 as int]);
            }
        }
        if c != '/' && starts {
            cnt = cnt + 1;
        }
        k = k + 1;
    }
    proof {
        assert(url@.subrange(p as int, e as int) == path);
    }
    cnt
}

/// The host component of a crawl's seed URL: links are in scope exactly
/// when their own host equals it.
pub struct BaseUrl {
    host: Option<String>,
}

impl BaseUrl {
    /// The host name this base carries, if the seed had a domain.
    pub closed spec fn host_view(self) -> Option<Seq<char>> {
        opt_str_view(self.host)
    }

    /// The stored host, for comparisons.
    pub fn host(&self) -> (h: &Option<String>)
        ensures
            opt_str_view(*h) == self.host_view(),
    {
        &self.host
    }
}

/// Parse a seed URL into the base against which links are scoped.
/// Returns `None` when the seed does not parse as a URL.
pub fn parse_base(s: &str) -> (r: Option<BaseUrl>)
    ensures
        match r {
            Some(b) => url_host(s@) == Some(b.host_view()),
            None => url_host(s@) is None,
        },
{
    match host_of(s) {
        Some(d) => Some(BaseUrl { host: d }),
        None => None,
    }
}

/// The depth of `url` relative to `base`: its number of non-empty path
/// segments when it parses and lies on the base's host, 0 otherwise.
pub fn calculate_url_depth(url: &str, base: &BaseUrl) -> (d: usize)
    ensures
        d as nat == calc_depth_spec(url@, base.host_view()),
{
    match host_of(url) {
        Some(h) => {
            if opt_host_eq(&h, base.host()) {
                url_depth(url)
            } else {
                0
            }
        },
        None => 0,
    }
}

} // verus!
