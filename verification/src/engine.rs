//! The Traversal Engine: the state machine of a crawl.  It owns the
//! Visit Ledger and the frontier stack, decides for every discovered
//! link whether it is fetched, and leaves the fetching itself — the
//! only I/O of a crawl — to its caller: `next_target` hands out the
//! next URL to fetch, `expand` takes the fetched page back and grows
//! the frontier by the links that survive the depth, scope, dedup and
//! pattern-cap filters.
use vstd::prelude::*;
use crate::depth::depth_of;
use crate::depth::url_depth;
use crate::ledger::Ledger;
use crate::normalize::normalize_spec;
use crate::normalize::normalize_url;
use crate::normalize::strip_fragment;
use crate::normalize::strip_fragment_str;
use crate::pattern::Pattern;
use crate::pattern::classify_spec;
use crate::pattern::get_url_pattern;
use crate::pattern::pat_sources;
use crate::pattern::str_views;
use crate::urls::host_of;
use crate::urls::opt_host_eq;
use crate::urls::opt_str_view;
use crate::urls::resolve_link;
use crate::urls::same_host;
use crate::urls::url_host;
use crate::urls::url_join;

verus! {

/// The `href` values of a document's anchor elements, in document
/// order.  Names what `scraper`'s HTML parsing yields, which depends on
/// the document text alone.
pub uninterp spec fn hrefs_of(html: Seq<char>) -> Seq<Seq<char>>;

/// Relies on `scraper::Html::parse_document`, `scraper::Selector::parse`
/// and the `select` iterator: the `href` attributes of the anchor
/// elements of a document, in document order, depend on the document
/// text alone.
#[verifier::external_body]
fn extract_links(html: &str) -> (r: Vec<String>)
    ensures
        str_views(r@) == hrefs_of(html@),
{
    let mut out = Vec::new();
    let doc = scraper::Html::parse_document(html);
    if let Ok(sel) = scraper::Selector::parse("a") {
        for el in doc.select(&sel) {
            if let Some(h) = el.value().attr("href") {
                out.push(h.to_string());
            }
        }
    }
    out
}

/// Whether a raw href is skipped for its scheme before any resolution:
/// telephone and mail links are not navigable.
pub open spec fn is_skip_scheme(h: Seq<char>) -> bool {
    (h.len() >= 4 && h.take(4) == "tel:"@) || (h.len() >= 7 && h.take(7) == "mailto:"@)
}

/// Whether `s` begins with `p`.
fn has_prefix(s: &str, p: &str) -> (r: bool)
    ensures
        r == (p@.len() <= s@.len() && s@.take(p@.len() as int) == p@),
{
    let pl: usize = p.unicode_len();
    let sl: usize = s.unicode_len();
    if pl > sl {
        return false;
    }
    let mut i: usize = 0;
    while i < pl
        invariant
            i <= pl <= sl,
            pl == p@.len(),
            sl == s@.len(),
            forall|j: int| 0 <= j < i ==> s@[j] == p@[j],
        decreases pl - i,
    {
        if s.get_char(i) != p.get_char(i) {
            proof {
                assert(s@.take(pl as int)[i as int] != p@[i as int]);
            }
            return false;
        }
        i = i + 1;
    }
    proof {
        assert(s@.take(pl as int) =~= p@);
    }
    true
}

/// The crawl engine: configuration, ledger and frontier of one run.
pub struct Crawler {
    base_host: Option<String>,
    max_depth: u64,
    limit: u64,
    patterns: Vec<Pattern>,
    ledger: Ledger,
    stack: Vec<String>,
}

impl Crawler {
    /// The host links must lie on to be in scope.
    pub closed spec fn base_host_view(self) -> Option<Seq<char>> {
        opt_str_view(self.base_host)
    }

    /// The configured maximum depth.
    pub closed spec fn max_depth_view(self) -> u64 {
        self.max_depth
    }

    /// The configured per-pattern cap.
    pub closed spec fn limit_view(self) -> u64 {
        self.limit
    }

    /// The sources of the configured patterns, in matching order.
    pub closed spec fn patterns_view(self) -> Seq<Seq<char>> {
        pat_sources(self.patterns@)
    }

    /// The frontier stack, bottom first: the last element is fetched
    /// next.
    pub closed spec fn stack_view(self) -> Seq<Seq<char>> {
        str_views(self.stack@)
    }

    /// The set of normalized URLs already visited.
    pub closed spec fn visited(self) -> Set<Seq<char>> {
        self.ledger.visited_set()
    }

    /// The visited URLs in visiting order.
    pub closed spec fn visited_order(self) -> Seq<Seq<char>> {
        self.ledger.visited_views()
    }

    /// The counter a pattern key currently holds.
    pub closed spec fn count_of(self, k: Seq<char>) -> nat {
        self.ledger.count_of(k)
    }

    /// The ledger's well-formedness.
    pub closed spec fn wf(self) -> bool {
        self.ledger.wf()
    }

    /// Whether two crawlers share base host, depth cap, pattern cap and
    /// pattern list.
    pub open spec fn same_config(self, other: Crawler) -> bool {
        &&& self.base_host_view() == other.base_host_view()
        &&& self.max_depth_view() == other.max_depth_view()
        &&& self.limit_view() == other.limit_view()
        &&& self.patterns_view() == other.patterns_view()
    }

    /// A fresh engine for one crawl: the seed is the sole frontier
    /// entry, nothing is visited, every counter is 0.  `None` exactly
    /// when the seed does not parse as a URL.
    pub fn new(seed: &str, max_depth: u64, limit: u64, patterns: Vec<Pattern>) -> (r: Option<
        Crawler,
    >)
        ensures
            r is Some <==> url_host(seed@) is Some,
            r matches Some(c) ==> ({
                &&& url_host(seed@) == Some(c.base_host_view())
                &&& c.max_depth_view() == max_depth
                &&& c.limit_view() == limit
                &&& c.patterns_view() == pat_sources(patterns@)
                &&& c.stack_view() == seq![seed@]
                &&& c.visited() == Set::<Seq<char>>::empty()
                &&& forall|k: Seq<char>| #[trigger] c.count_of(k) == 0
                &&& c.wf()
            }),
    {
        match host_of(seed) {
            Some(host) => {
                let mut stack: Vec<String> = Vec::new();
                stack.push(seed.to_owned());
                let c = Crawler {
                    base_host: host,
                    max_depth,
                    limit,
                    patterns,
                    ledger: Ledger::new(),
                    stack,
                };
                proof {
                    assert(c.stack_view() =~= seq![seed@]);
                }
                Some(c)
            },
            None => None,
        }
    }

    /// What popping the frontier until an unvisited URL appears yields:
    /// the remaining stack, the visited set, and the URL to fetch —
    /// fragment stripped — if any.
    pub open spec fn next_model(stack: Seq<Seq<char>>, visited: Set<Seq<char>>) -> (
        Seq<Seq<char>>,
        Set<Seq<char>>,
        Option<Seq<char>>,
    )
        decreases stack.len(),
    {
        if stack.len() == 0 {
            (stack, visited, None::<Seq<char>>)
        } else {
            let bare = strip_fragment(stack.last());
            let nrm = normalize_spec(bare);
            if visited.contains(nrm) {
                Self::next_model(stack.drop_last(), visited)
            } else {
                (stack.drop_last(), visited.insert(nrm), Some(bare))
            }
        }
    }

    /// Pop frontier entries until one is found whose normalized form is
    /// not yet visited; mark it visited and hand it out, fragment
    /// stripped, for fetching.  `None` when the frontier is exhausted:
    /// the crawl is over.
    pub fn next_target(&mut self) -> (r: Option<String>)
        requires
            old(self).wf(),
        ensures
            ({
                let (st2, vis2, r2) = Self::next_model(
                    old(self).stack_view(),
                    old(self).visited(),
                );
                &&& final(self).stack_view() == st2
                &&& final(self).visited() == vis2
                &&& match r {
                    Some(u) => r2 == Some(u@),
                    None => r2 is None,
                }
            }),
            final(self).same_config(*old(self)),
            forall|k: Seq<char>| #[trigger] final(self).count_of(k) == old(self).count_of(k),
            final(self).wf(),
    {
        loop
            invariant
                self.wf(),
                self.same_config(*old(self)),
                self.visited() == old(self).visited(),
                forall|k: Seq<char>| #[trigger] self.count_of(k) == old(self).count_of(k),
                Self::next_model(old(self).stack_view(), old(self).visited())
                    == Self::next_model(self.stack_view(), self.visited()),
            decreases self.stack@.len(),
        {
            let ghost pre_self = *self;
            let ghost pre_stack = self.stack_view();
            match self.stack.pop() {
                Some(top) => {
                    proof {
                        assert(pre_stack.last() == top@);
                        assert(self.stack_view() =~= pre_stack.drop_last());
                    }
                    let bare = strip_fragment_str(top.as_str());
                    let nrm = normalize_url(bare.as_str());
                    proof {
                        assert(bare@ == strip_fragment(pre_stack.last()));
                        assert(nrm@ == normalize_spec(strip_fragment(pre_stack.last())));
                    }
                    if !self.ledger.has_visited(&nrm) {
                        proof {
                            assert(Self::next_model(pre_stack, self.visited()) == (
                                pre_stack.drop_last(),
                                self.visited().insert(nrm@),
                                Some(bare@),
                            ));
                        }
                        self.ledger.mark_visited(nrm);
                        proof {
                            assert forall|k: Seq<char>| #[trigger] self.count_of(k) == old(
                                self,
                            ).count_of(k) by {
                                assert(self.ledger.count_of(k) == pre_self.ledger.count_of(k));
                                assert(pre_self.count_of(k) == old(self).count_of(k));
                            };
                        }
                        return Some(bare);
                    }
                    proof {
                        assert(Self::next_model(pre_stack, self.visited()) == Self::next_model(
                            pre_stack.drop_last(),
                            self.visited(),
                        ));
                        assert forall|k: Seq<char>| #[trigger] self.count_of(k) == old(
                            self,
                        ).count_of(k) by {
                            assert(self.count_of(k) == pre_self.count_of(k));
                            assert(pre_self.count_of(k) == old(self).count_of(k));
                        };
                    }
                },
                None => {
                    proof {
                        assert(pre_stack.len() == 0);
                        assert(self.stack_view() == pre_stack);
                        assert(Self::next_model(pre_stack, self.visited()) == (
                            pre_stack,
                            self.visited(),
                            None::<Seq<char>>,
                        ));
                        assert forall|k: Seq<char>| #[trigger] self.count_of(k) == old(
                            self,
                        ).count_of(k) by {
                            assert(pre_self.count_of(k) == old(self).count_of(k));
                        };
                    }
                    return None;
                },
            }
        }
    }
    /// How many distinct URLs this run has visited.
    pub fn visited_count(&self) -> (n: usize)
        requires
            self.wf(),
        ensures
            n == self.visited().len(),
    {
        self.ledger.visited_count()
    }

    /// What one raw href of a page becomes after every filter that does
    /// not depend on the pattern counters: `None` when it is skipped —
    /// non-navigable scheme, unresolvable, off the base host, too deep,
    /// or already visited — and otherwise the resolved absolute URL
    /// together with its pattern key.
    pub open spec fn accepts(self, page: Seq<char>, h: Seq<char>) -> Option<(Seq<char>, Seq<char>)> {
        if is_skip_scheme(h) {
            None
        } else {
            match url_join(page, h) {
                None => None,
                Some((abs, abs_host)) => {
                    if !same_host(abs_host, self.base_host_view()) {
                        None
                    } else {
                        let nrm = normalize_spec(abs);
                        if depth_of(nrm) > self.max_depth_view() as nat {
                            None
                        } else if self.visited().contains(nrm) {
                            None
                        } else {
                            Some((abs, classify_spec(nrm, self.patterns_view())))
                        }
                    }
                },
            }
        }
    }

    /// The candidates of a page: the accepted links, in document order,
    /// each with its pattern key.
    pub open spec fn candidates(self, page: Seq<char>, hrefs: Seq<Seq<char>>) -> Seq<
        (Seq<char>, Seq<char>),
    >
        decreases hrefs.len(),
    {
        if hrefs.len() == 0 {
            Seq::empty()
        } else {
            let c = self.candidates(page, hrefs.drop_last());
            match self.accepts(page, hrefs.last()) {
                Some(p) => c.push(p),
                None => c,
            }
        }
    }

    /// The part of the candidate list that the pattern cap admits: a
    /// candidate enters the queue exactly while its key's counter —
    /// the counter at the start of the expansion plus the admissions
    /// already queued — is below the cap.
    pub open spec fn queue_of(self, cands: Seq<(Seq<char>, Seq<char>)>) -> Seq<
        (Seq<char>, Seq<char>),
    >
        decreases cands.len(),
    {
        if cands.len() == 0 {
            Seq::empty()
        } else {
            let q = self.queue_of(cands.drop_last());
            let c = cands.last();
            if self.count_of(c.1) + key_occ(q, c.1) < self.limit_view() as nat {
                q.push(c)
            } else {
                q
            }
        }
    }
}

/// How many queued candidates carry the key `k`.
pub open spec fn key_occ(q: Seq<(Seq<char>, Seq<char>)>, k: Seq<char>) -> nat
    decreases q.len(),
{
    if q.len() == 0 {
        0
    } else {
        (key_occ(q.drop_last(), k) + (if q.last().1 == k {
            1nat
        } else {
            0nat
        })) as nat
    }
}

/// The absolute URLs of a candidate list, in order.
pub open spec fn abs_of(q: Seq<(Seq<char>, Seq<char>)>) -> Seq<Seq<char>> {
    q.map_values(|e: (Seq<char>, Seq<char>)| e.0)
}

/// The sequence read back to front.
pub open spec fn rev_of(s: Seq<Seq<char>>) -> Seq<Seq<char>> {
    Seq::new(s.len(), |i: int| s[s.len() - 1 - i])
}

impl Crawler {
    /// No pattern class is over-visited: as long as a key's counter has
    /// not passed the cap, the counter plus what one expansion queues
    /// under that key stays within the cap, whatever the page's links.
    pub proof fn lemma_queue_respects_cap(
        self,
        cands: Seq<(Seq<char>, Seq<char>)>,
        k: Seq<char>,
    )
        requires
            self.count_of(k) <= self.limit_view() as nat,
        ensures
            self.count_of(k) + key_occ(self.queue_of(cands), k) <= self.limit_view() as nat,
        decreases cands.len(),
    {
        if cands.len() > 0 {
            self.lemma_queue_respects_cap(cands.drop_last(), k);
            let q = self.queue_of(cands.drop_last());
            let c = cands.last();
            if self.count_of(c.1) + key_occ(q, c.1) < self.limit_view() as nat {
                assert(self.queue_of(cands) == q.push(c));
                assert(q.push(c).drop_last() =~= q);
            }
        }
    }

    /// Take a fetched page back and grow the frontier.  A 404 page is
    /// not expanded at all.  Otherwise the page's links run, in
    /// document order, through the scheme, resolution, scope, depth,
    /// dedup and pattern-cap filters; the survivors' counters are
    /// counted up and the survivors enter the frontier stack in reverse
    /// document order, so that the first link of the page is fetched
    /// first and its subtree explored before the next sibling's.
    pub fn expand(&mut self, page_url: &str, status: u16, html: &str)
        ensures
            status == 404 ==> *final(self) == *old(self),
            status != 404 ==> ({
                let cands = old(self).candidates(page_url@, hrefs_of(html@));
                let q = old(self).queue_of(cands);
                &&& final(self).stack_view() == old(self).stack_view() + rev_of(abs_of(q))
                &&& forall|k: Seq<char>|
                    #[trigger] final(self).count_of(k) == old(self).count_of(k) + key_occ(q, k)
                &&& final(self).visited() == old(self).visited()
                &&& final(self).visited_order() == old(self).visited_order()
                &&& final(self).same_config(*old(self))
                &&& (old(self).wf() ==> final(self).wf())
            }),
    {
        if status == 404 {
            return;
        }
        let links = extract_links(html);
        let n: usize = links.len();
        let ghost hrefs = hrefs_of(html@);
        let mut queue: Vec<String> = Vec::new();
        let ghost mut cands: Seq<(Seq<char>, Seq<char>)> = Seq::empty();
        let ghost mut q: Seq<(Seq<char>, Seq<char>)> = Seq::empty();
        proof {
            assert(hrefs.take(0) =~= Seq::<Seq<char>>::empty());
            assert(str_views(queue@) =~= abs_of(q));
        }
        let mut i: usize = 0;
        while i < n
            invariant
                i <= n,
                n == links@.len(),
                str_views(links@) == hrefs,
                self.same_config(*old(self)),
                self.visited() == old(self).visited(),
                self.visited_order() == old(self).visited_order(),
                self.stack_view() == old(self).stack_view(),
                old(self).wf() ==> self.wf(),
                old(self).same_config(*self),
                cands == old(self).candidates(page_url@, hrefs.take(i as int)),
                q == old(self).queue_of(cands),
                str_views(queue@) == abs_of(q),
                forall|k: Seq<char>|
                    #[trigger] self.count_of(k) == old(self).count_of(k) + key_occ(q, k),
            decreases n - i,
        {
            let ghost pre_self = *self;
            let ghost h = hrefs[i as int];
            let ghost pre_cands = cands;
            let ghost pre_q = q;
            proof {
                assert(str_views(links@)[i as int] == links@[i as int]@);
                assert(hrefs.take(i + 1 as int).drop_last() =~= hrefs.take(i as int));
                assert(hrefs.take(i + 1 as int).last() == h);
                reveal_strlit("tel:");
                reveal_strlit("mailto:");
            }
            let href = &links[i];
            let skip_tel = has_prefix(href.as_str(), "tel:");
            let skip_mail = has_prefix(href.as_str(), "mailto:");
            let mut handled = false;
            proof {
                assert((skip_tel || skip_mail) == is_skip_scheme(h));
            }
            if !skip_tel && !skip_mail {
                match resolve_link(page_url, href.as_str()) {
                    Some(link) => {
                        let (abs, abs_host) = link;
                        proof {
                            assert(url_join(page_url@, h) == Some(
                                (abs@, opt_str_view(abs_host)),
                            ));
                        }
                        if opt_host_eq(&abs_host, &self.base_host) {
                            let nrm = normalize_url(abs.as_str());
                            let d: usize = url_depth(nrm.as_str());
                            proof {
                                assert(nrm@ == normalize_spec(abs@));
                                assert(same_host(
                                    opt_str_view(abs_host),
                                    old(self).base_host_view(),
                                ));
                            }
                            if (d as u64) <= self.max_depth {
                                if !self.ledger.has_visited(&nrm) {
                                    let key = get_url_pattern(nrm.as_str(), &self.patterns);
                                    proof {
                                        assert(key@ == classify_spec(
                                            nrm@,
                                            old(self).patterns_view(),
                                        ));
                                        assert(old(self).accepts(page_url@, h) == Some(
                                            (abs@, key@),
                                        ));
                                        assert(pre_self.count_of(key@) == old(self).count_of(key@)
                                            + key_occ(pre_q, key@));
                                    }
                                    let ok = self.ledger.try_admit(&key, self.limit);
                                    proof {
                                        cands = pre_cands.push((abs@, key@));
                                        assert(cands.drop_last() =~= pre_cands);
                                        assert(cands == old(self).candidates(
                                            page_url@,
                                            hrefs.take(i + 1 as int),
                                        ));
                                        let cap_open = old(self).count_of(key@) + key_occ(
                                            pre_q,
                                            key@,
                                        ) < old(self).limit_view() as nat;
                                        assert(ok == cap_open);
                                        if cap_open {
                                            q = pre_q.push((abs@, key@));
                                            assert(q.drop_last() =~= pre_q);
                                        }
                                        assert(q == old(self).queue_of(cands));
                                    }
                                    if ok {
                                        queue.push(abs);
                                        proof {
                                            assert(str_views(queue@) =~= abs_of(pre_q).push(
                                                q.last().0,
                                            ));
                                            assert(str_views(queue@) =~= abs_of(q));
                                        }
                                    }
                                    proof {
                                        assert forall|k: Seq<char>| #[trigger] self.count_of(k)
                                            == old(self).count_of(k) + key_occ(q, k) by {
                                            assert(pre_self.count_of(k) == old(self).count_of(k)
                                                + key_occ(pre_q, k));
                                            if ok {
                                                assert(q.drop_last() =~= pre_q);
                                                if k == key@ {
                                                    assert(self.count_of(k) == pre_self.count_of(
                                                        k,
                                                    ) + 1);
                                                    assert(key_occ(q, k) == key_occ(pre_q, k) + 1);
                                                } else {
                                                    assert(self.count_of(k) == pre_self.count_of(
                                                        k,
                                                    ));
                                                    assert(key_occ(q, k) == key_occ(pre_q, k));
                                                }
                                            } else {
                                                assert(self.count_of(k) == pre_self.count_of(k));
                                            }
                                        };
                                    }
                                    handled = true;
                                }
                            }
                        }
                    },
                    None => {
                    },
                }
            }
            if !handled {
                proof {
                    assert(old(self).accepts(page_url@, h) is None);
                    assert(cands == old(self).candidates(page_url@, hrefs.take(i + 1 as int)));
                    assert forall|k: Seq<char>| #[trigger] self.count_of(k) == old(
                        self,
                    ).count_of(k) + key_occ(q, k) by {
                        assert(self.count_of(k) == pre_self.count_of(k));
                        assert(pre_self.count_of(k) == old(self).count_of(k) + key_occ(pre_q, k));
                    };
                }
            }
            i = i + 1;
        }
        proof {
            assert(hrefs.take(n as int) =~= hrefs);
        }
        // enqueue the survivors in reverse document order
        let ghost total = abs_of(q);
        let ghost m = queue@.len();
        proof {
            assert(total.len() == m);
            assert(rev_of(total).take(0) =~= Seq::<Seq<char>>::empty());
            assert(self.stack_view() + rev_of(total).take(0) =~= self.stack_view());
        }
        loop
            invariant
                queue@.len() <= m,
                str_views(queue@) == total.take(queue@.len() as int),
                total.len() == m,
                total == abs_of(q),
                q == old(self).queue_of(
                    old(self).candidates(page_url@, hrefs_of(html@)),
                ),
                self.same_config(*old(self)),
                self.visited() == old(self).visited(),
                self.visited_order() == old(self).visited_order(),
                old(self).wf() ==> self.wf(),
                forall|k: Seq<char>|
                    #[trigger] self.count_of(k) == old(self).count_of(k) + key_occ(q, k),
                self.stack_view() == old(self).stack_view() + rev_of(total).take(
                    (m - queue@.len()) as int,
                ),
                status != 404,
            decreases queue@.len(),
        {
            let ghost pre_self = *self;
            let ghost pre_len = queue@.len();
            let ghost pre_queue = queue@;
            match queue.pop() {
                Some(u) => {
                    proof {
                        assert forall|j: int| 0 <= j < queue@.len() implies str_views(
                            queue@,
                        )[j] == total[j] by {
                            assert(str_views(queue@)[j] == queue@[j]@);
                            assert(queue@[j] == pre_queue[j]);
                            assert(str_views(pre_queue)[j] == pre_queue[j]@);
                            assert(total.take(pre_len as int)[j] == total[j]);
                        };
                        assert(str_views(queue@) =~= total.take(pre_len - 1));
                        assert(str_views(pre_queue)[pre_len - 1] == pre_queue[pre_len - 1]@);
                        assert(total.take(pre_len as int)[pre_len - 1] == total[pre_len - 1]);
                        assert(u@ == total[pre_len - 1]);
                    }
                    self.stack.push(u);
                    proof {
                        assert(self.stack_view() =~= pre_self.stack_view().push(
                            total[pre_len - 1],
                        ));
                        assert(rev_of(total)[m - pre_len] == total[pre_len - 1]);
                        assert(self.stack_view() =~= old(self).stack_view() + rev_of(total).take(
                            (m - pre_len + 1) as int,
                        ));
                        assert forall|k: Seq<char>| #[trigger] self.count_of(k) == old(
                            self,
                        ).count_of(k) + key_occ(q, k) by {
                            assert(self.count_of(k) == pre_self.count_of(k));
                            assert(pre_self.count_of(k) == old(self).count_of(k) + key_occ(q, k));
                        };
                    }
                },
                None => {
                    proof {
                        assert(queue@.len() == 0);
                        assert(rev_of(total).take(m as int) =~= rev_of(total));
                    }
                    return;
                },
            }
        }
    }
}

} // verus!
