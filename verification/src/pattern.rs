//! Pattern classification and throttling keys.  A normalized URL is
//! classified by the first regular expression of a caller-supplied list
//! that matches it; the expression's source text is the pattern key.  A
//! URL no expression matches is its own key.  Pattern lists are loaded
//! from newline-delimited text, blank lines ignored, duplicates
//! collapsed before compilation.
use vstd::prelude::*;
use crate::normalize::push_char;

verus! {

/// Whether a pattern source compiles as a regular expression.  Names
/// the success of `regex::Regex::new`, which depends on the source
/// alone.
pub uninterp spec fn regex_ok(src: Seq<char>) -> bool;

/// Whether the regular expression compiled from `src` matches `text`.
/// Names the result of `regex::Regex::is_match`, which depends on the
/// expression's source and the haystack alone.
pub uninterp spec fn regex_match(src: Seq<char>, text: Seq<char>) -> bool;

#[verifier::external_type_specification]
#[verifier::external_body]
pub struct ExRegex(regex::Regex);

/// A compiled pattern together with the source text it was compiled
/// from; the source doubles as the pattern's key.
pub struct Pattern {
    source: String,
    re: regex::Regex,
}

/// The failure of loading a pattern list: some line does not compile as
/// a regular expression.
#[derive(Debug, PartialEq, Eq)]
pub enum PatternError {
    InvalidPattern,
}

impl Pattern {
    /// The source text this pattern was compiled from.
    pub closed spec fn source_view(self) -> Seq<char> {
        self.source@
    }

    /// The source text this pattern was compiled from.
    pub fn as_str(&self) -> (r: &str)
        ensures
            r@ == self.source_view(),
    {
        self.source.as_str()
    }

    /// Relies on `regex::Regex::is_match`: whether an expression matches
    /// a string depends on the expression's source and the string alone.
    /// The expression stored here was compiled from `self.source`.
    #[verifier::external_body]
    pub fn is_match(&self, text: &str) -> (r: bool)
        ensures
            r == regex_match(self.source_view(), text@),
    {
        self.re.is_match(text)
    }
}

/// Relies on `regex::Regex::new`: whether a source compiles depends on
/// the source alone.
#[verifier::external_body]
fn compile_pattern(src: &str) -> (r: Option<Pattern>)
    ensures
        r is Some <==> regex_ok(src@),
        r matches Some(p) ==> p.source_view() == src@,
{
    match regex::Regex::new(src) {
        Ok(re) => Some(Pattern { source: src.to_owned(), re }),
        Err(_) => None,
    }
}

/// The sources of a pattern list, in order.
pub open spec fn pat_sources(ps: Seq<Pattern>) -> Seq<Seq<char>> {
    ps.map_values(|p: Pattern| p.source_view())
}

/// The views of a list of strings.
pub open spec fn str_views(l: Seq<String>) -> Seq<Seq<char>> {
    l.map_values(|s: String| s@)
}

/// The key a URL falls under: the source of the first expression that
/// matches it, or the URL itself when none does.
pub open spec fn classify_spec(u: Seq<char>, srcs: Seq<Seq<char>>) -> Seq<char>
    decreases srcs.len(),
{
    if srcs.len() == 0 {
        u
    } else if regex_match(srcs[0], u) {
        srcs[0]
    } else {
        classify_spec(u, srcs.drop_first())
    }
}

/// Expressions that do not match can be skipped without changing the
/// classification.
proof fn lemma_classify_skip(u: Seq<char>, srcs: Seq<Seq<char>>, i: int)
    requires
        0 <= i <= srcs.len(),
        forall|k: int| 0 <= k < i ==> !regex_match(srcs[k], u),
    ensures
        classify_spec(u, srcs) == classify_spec(u, srcs.skip(i)),
    decreases i,
{
    if i > 0 {
        lemma_classify_skip(u, srcs, i - 1);
        let rest = srcs.skip(i - 1);
        assert(rest[0] == srcs[i - 1]);
        assert(rest.drop_first() =~= srcs.skip(i));
    } else {
        assert(srcs.skip(0) =~= srcs);
    }
}

/// Classify a URL against a pattern list: the first matching
/// expression's source, or the URL itself when none matches.
pub fn get_url_pattern(url: &str, patterns: &Vec<Pattern>) -> (r: String)
    ensures
        r@ == classify_spec(url@, pat_sources(patterns@)),
{
    let ghost srcs = pat_sources(patterns@);
    let n: usize = patterns.len();
    let mut i: usize = 0;
    while i < n
        invariant
            i <= n,
            n == patterns@.len(),
            srcs == pat_sources(patterns@),
            forall|k: int| 0 <= k < i ==> !regex_match(srcs[k], url@),
        decreases n - i,
    {
        let p = &patterns[i];
        if p.is_match(url) {
            proof {
                lemma_classify_skip(url@, srcs, i as int);
                assert(srcs.skip(i as int)[0] == srcs[i as int]);
            }
            return p.as_str().to_owned();
        }
        i = i + 1;
    }
    proof {
        lemma_classify_skip(url@, srcs, n as int);
        assert(srcs.skip(n as int) =~= Seq::<Seq<char>>::empty());
    }
    url.to_owned()
}

/// Whether a character counts as surrounding whitespace of a pattern
/// line: the characters `char::is_whitespace` recognizes, the Unicode
/// `White_Space` set.
pub open spec fn is_space(c: char) -> bool {
    ||| ('\u{0009}' <= c && c <= '\u{000D}')
    ||| c == ' '
    ||| c == '\u{0085}'
    ||| c == '\u{00A0}'
    ||| c == '\u{1680}'
    ||| ('\u{2000}' <= c && c <= '\u{200A}')
    ||| c == '\u{2028}'
    ||| c == '\u{2029}'
    ||| c == '\u{202F}'
    ||| c == '\u{205F}'
    ||| c == '\u{3000}'
}

/// `s` without its leading whitespace.
pub open spec fn trim_front(s: Seq<char>) -> Seq<char>
    decreases s.len(),
{
    if s.len() > 0 && is_space(s[0]) {
        trim_front(s.drop_first())
    } else {
        s
    }
}

/// `s` without its trailing whitespace.
pub open spec fn trim_back(s: Seq<char>) -> Seq<char>
    decreases s.len(),
{
    if s.len() > 0 && is_space(s.last()) {
        trim_back(s.drop_last())
    } else {
        s
    }
}

/// `s` without leading and trailing whitespace.
pub open spec fn trim_spec(s: Seq<char>) -> Seq<char> {
    trim_back(trim_front(s))
}

/// Dropping leading whitespace leaves the suffix that begins at the
/// first non-space character.
proof fn lemma_trim_front_skip(s: Seq<char>, k: int)
    requires
        0 <= k <= s.len(),
        forall|j: int| 0 <= j < k ==> is_space(s[j]),
        k == s.len() || !is_space(s[k]),
    ensures
        trim_front(s) == s.skip(k),
    decreases k,
{
    if k > 0 {
        let rest = s.drop_first();
        assert(forall|j: int| 0 <= j < rest.len() ==> rest[j] == s[j + 1]);
        lemma_trim_front_skip(rest, k - 1);
        assert(rest.skip(k - 1) =~= s.skip(k));
    } else {
        assert(s.skip(0) =~= s);
    }
}

/// Dropping trailing whitespace leaves the prefix that ends after the
/// last non-space character.
proof fn lemma_trim_back_take(s: Seq<char>, k: int)
    requires
        0 <= k <= s.len(),
        forall|j: int| k <= j < s.len() ==> is_space(s[j]),
        k == 0 || !is_space(s[k - 1]),
    ensures
        trim_back(s) == s.take(k),
    decreases s.len(),
{
    if s.len() > 0 && is_space(s.last()) {
        lemma_trim_back_take(s.drop_last(), k);
        assert(s.drop_last().take(k) =~= s.take(k));
    } else {
        assert(k == s.len());
        assert(s.take(k) =~= s);
    }
}

/// Whether a character counts as surrounding whitespace.
fn is_space_char(c: char) -> (r: bool)
    ensures
        r == is_space(c),
{
    ('\u{0009}' <= c && c <= '\u{000D}') || c == ' ' || c == '\u{0085}' || c == '\u{00A0}'
        || c == '\u{1680}' || ('\u{2000}' <= c && c <= '\u{200A}') || c == '\u{2028}'
        || c == '\u{2029}' || c == '\u{202F}' || c == '\u{205F}' || c == '\u{3000}'
}

/// The line without its leading and trailing whitespace.
fn trim_str(line: &str) -> (t: String)
    ensures
        t@ == trim_spec(line@),
{
    let m: usize = line.unicode_len();
    let mut a: usize = 0;
    while a < m && is_space_char(line.get_char(a))
        invariant
            a <= m,
            m == line@.len(),
            forall|j: int| 0 <= j < a ==> is_space(line@[j]),
        decreases m - a,
    {
        a = a + 1;
    }
    proof {
        lemma_trim_front_skip(line@, a as int);
    }
    let mut b: usize = m;
    while b > a && is_space_char(line.get_char(b - 1))
        invariant
            a <= b <= m,
            m == line@.len(),
            forall|j: int| b <= j < m ==> is_space(line@[j]),
        decreases b,
    {
        b = b - 1;
    }
    proof {
        let front = line@.skip(a as int);
        assert(forall|j: int| 0 <= j < front.len() ==> front[j] == line@[j + a]);
        lemma_trim_back_take(front, b - a);
        assert(front.take(b - a) =~= line@.subrange(a as int, b as int));
    }
    let mut t = String::new();
    let mut k: usize = a;
    while k < b
        invariant
            a <= k <= b <= m,
            m == line@.len(),
            t@ == line@.subrange(a as int, k as int),
        decreases b - k,
    {
        let c = line.get_char(k);
        push_char(&mut t, c);
        proof {
            assert(t@ =~= line@.subrange(a as int, k + 1 as int));
        }
        k = k + 1;
    }
    proof {
        assert(t@ == trim_spec(line@));
    }
    t
}

/// The first newline at or after `i`.
pub open spec fn find_nl_from(s: Seq<char>, i: int) -> Option<int>
    decreases s.len() - i,
{
    if i < 0 || i >= s.len() {
        None
    } else if s[i] == '\n' {
        Some(i)
    } else {
        find_nl_from(s, i + 1)
    }
}

/// Skipping positions that hold no newline does not change the first
/// one found.
proof fn lemma_nl_skip(s: Seq<char>, i: int, k: int)
    requires
        0 <= i <= k,
        forall|j: int| i <= j < k ==> s[j] != '\n',
    ensures
        find_nl_from(s, i) == find_nl_from(s, k),
    decreases k - i,
{
    if i < k {
        lemma_nl_skip(s, i + 1, k);
    }
}

/// A found newline lies at or after the start of the search and inside
/// the text.
proof fn lemma_nl_bounds(s: Seq<char>, i: int)
    ensures
        find_nl_from(s, i) matches Some(j) ==> i <= j < s.len(),
    decreases s.len() - i,
{
    if 0 <= i < s.len() && s[i] != '\n' {
        lemma_nl_bounds(s, i + 1);
    }
}

/// The lines of a text, from position `i` on: maximal stretches not
/// holding a newline.
pub open spec fn lines_from(s: Seq<char>, i: int) -> Seq<Seq<char>>
    decreases s.len() - i,
    when i >= 0
    via lines_from_decreases
{
    if i < 0 || i > s.len() {
        Seq::empty()
    } else {
        match find_nl_from(s, i) {
            None => seq![s.subrange(i, s.len() as int)],
            Some(j) => seq![s.subrange(i, j)] + lines_from(s, j + 1),
        }
    }
}

#[via_fn]
proof fn lines_from_decreases(s: Seq<char>, i: int) {
    lemma_nl_bounds(s, i);
}

/// The lines of a text.
pub open spec fn lines_of(s: Seq<char>) -> Seq<Seq<char>> {
    lines_from(s, 0)
}

/// The lines that survive trimming: each line trimmed, blank ones
/// dropped.
pub open spec fn cleaned_lines(ls: Seq<Seq<char>>) -> Seq<Seq<char>>
    decreases ls.len(),
{
    if ls.len() == 0 {
        Seq::empty()
    } else {
        let c = cleaned_lines(ls.drop_last());
        let t = trim_spec(ls.last());
        if t.len() == 0 {
            c
        } else {
            c.push(t)
        }
    }
}

/// The list with later repetitions of an element dropped: an element is
/// kept exactly where it first occurs.
pub open spec fn dedup_spec(l: Seq<Seq<char>>) -> Seq<Seq<char>>
    decreases l.len(),
{
    if l.len() == 0 {
        Seq::empty()
    } else {
        let d = dedup_spec(l.drop_last());
        if l.drop_last().contains(l.last()) {
            d
        } else {
            d.push(l.last())
        }
    }
}

/// De-duplication keeps exactly the elements of the list, each once:
/// the result holds no duplicates, and an element stands in it exactly
/// when it stands in the list.
pub proof fn lemma_dedup_spec(l: Seq<Seq<char>>)
    ensures
        dedup_spec(l).no_duplicates(),
        forall|e: Seq<char>| #[trigger] dedup_spec(l).contains(e) <==> l.contains(e),
    decreases l.len(),
{
    if l.len() > 0 {
        let pre = l.drop_last();
        let d = dedup_spec(pre);
        lemma_dedup_spec(pre);
        assert forall|e: Seq<char>| #[trigger] l.contains(e) implies dedup_spec(l).contains(e) by {
            let w = choose|w: int| 0 <= w < l.len() && l[w] == e;
            if w < l.len() - 1 {
                assert(pre[w] == e);
                assert(pre.contains(e));
                if !pre.contains(l.last()) {
                    assert(d.contains(e));
                    let v = choose|v: int| 0 <= v < d.len() && d[v] == e;
                    assert(d.push(l.last())[v] == e);
                }
            } else {
                if pre.contains(l.last()) {
                    assert(d.contains(e));
                } else {
                    assert(d.push(l.last()).last() == e);
                }
            }
        };
        assert forall|e: Seq<char>| #[trigger] dedup_spec(l).contains(e) implies l.contains(e) by {
            if pre.contains(l.last()) {
                assert(dedup_spec(pre).contains(e));
                assert(pre.contains(e));
                let w = choose|w: int| 0 <= w < pre.len() && pre[w] == e;
                assert(l[w] == e);
            } else {
                let v = choose|v: int| 0 <= v < d.push(l.last()).len() && d.push(l.last())[v] == e;
                if v < d.len() {
                    assert(d[v] == e);
                    assert(d.contains(e));
                    assert(dedup_spec(pre).contains(e));
                    assert(pre.contains(e));
                    let w = choose|w: int| 0 <= w < pre.len() && pre[w] == e;
                    assert(l[w] == e);
                } else {
                    assert(e == l.last());
                    assert(l[l.len() - 1] == e);
                }
            }
        };
        if !pre.contains(l.last()) {
            assert(!d.contains(l.last()));
            assert forall|x: int, y: int|
                0 <= x < y < d.push(l.last()).len() implies d.push(l.last())[x] != d.push(l.last())[y] by {
                if y < d.len() {
                    assert(d[x] != d[y]);
                } else {
                    assert(d.push(l.last())[y] == l.last());
                    assert(d.push(l.last())[x] == d[x]);
                    assert(!d.contains(l.last()));
                    if d[x] == l.last() {
                        assert(d.contains(l.last()));
                    }
                }
            };
        }
    }
}

/// The de-duplicated trimmed non-blank lines of a pattern file's text:
/// the pattern keys it defines, in first-occurrence order.
pub open spec fn pattern_sources_spec(content: Seq<char>) -> Seq<Seq<char>> {
    dedup_spec(cleaned_lines(lines_of(content)))
}

/// Whether every pattern source a text defines compiles.
pub open spec fn all_sources_ok(content: Seq<char>) -> bool {
    forall|k: int|
        0 <= k < pattern_sources_spec(content).len() ==> regex_ok(
            #[trigger] pattern_sources_spec(content)[k],
        )
}

/// Extending the line list by one line extends its cleaned,
/// de-duplicated form in one step.
proof fn lemma_clean_dedup_step(ls: Seq<Seq<char>>, line: Seq<char>)
    ensures
        dedup_spec(cleaned_lines(ls.push(line))) == ({
            let acc = dedup_spec(cleaned_lines(ls));
            let t = trim_spec(line);
            if t.len() == 0 || acc.contains(t) {
                acc
            } else {
                acc.push(t)
            }
        }),
{
    let pushed = ls.push(line);
    assert(pushed.drop_last() =~= ls);
    assert(pushed.last() == line);
    let c = cleaned_lines(ls);
    let t = trim_spec(line);
    if t.len() == 0 {
        assert(cleaned_lines(pushed) == c);
    } else {
        assert(cleaned_lines(pushed) == c.push(t));
        assert(c.push(t).drop_last() =~= c);
        lemma_dedup_spec(c);
    }
}

/// Whether some string of the list reads `t`.
fn contains_str(l: &Vec<String>, t: &String) -> (r: bool)
    ensures
        r == str_views(l@).contains(t@),
{
    let n: usize = l.len();
    let mut i: usize = 0;
    while i < n
        invariant
            i <= n,
            n == l@.len(),
            forall|k: int| 0 <= k < i ==> str_views(l@)[k] != t@,
        decreases n - i,
    {
        let x = &l[i];
        if *x == *t {
            proof {
                assert(str_views(l@)[i as int] == t@);
            }
            return true;
        }
        i = i + 1;
    }
    proof {
        if str_views(l@).contains(t@) {
            let w = choose|w: int| 0 <= w < str_views(l@).len() && str_views(l@)[w] == t@;
            assert(false);
        }
    }
    false
}

/// Load a pattern list from the text of a newline-delimited file: each
/// line trimmed, blank lines ignored, duplicates collapsed to the first
/// occurrence, and every surviving source compiled.  Fails exactly when
/// some surviving source does not compile as a regular expression.
pub fn load_unique_patterns(content: &str) -> (r: Result<Vec<Pattern>, PatternError>)
    ensures
        r is Ok <==> all_sources_ok(content@),
        r matches Ok(ps) ==> pat_sources(ps@) == pattern_sources_spec(content@),
{
    let n: usize = content.unicode_len();
    let mut srcs: Vec<String> = Vec::new();
    let mut pos: usize = 0;
    let mut done = false;
    let ghost mut lines_done: Seq<Seq<char>> = Seq::empty();
    proof {
        assert(lines_done + lines_from(content@, 0) =~= lines_from(content@, 0));
        assert(str_views(srcs@) =~= dedup_spec(cleaned_lines(lines_done)));
    }
    while !done
        invariant
            pos <= n,
            n == content@.len(),
            lines_of(content@) == if done {
                lines_done
            } else {
                lines_done + lines_from(content@, pos as int)
            },
            str_views(srcs@) == dedup_spec(cleaned_lines(lines_done)),
        decreases n - pos + (if done { 0int } else { 1int }),
    {
        // find the next newline
        let mut q: usize = pos;
        let mut nl: Option<usize> = None;
        while q < n && nl.is_none()
            invariant
                pos <= q <= n,
                n == content@.len(),
                match nl {
                    Some(e) => e == q && e < n && content@[e as int] == '\n' && (forall|k: int|
                        pos <= k < e ==> content@[k] != '\n'),
                    None => forall|k: int| pos <= k < q ==> content@[k] != '\n',
                },
            decreases n - q + (if nl is None { 1int } else { 0int }),
        {
            if content.get_char(q) == '\n' {
                nl = Some(q);
            } else {
                q = q + 1;
            }
        }
        let lend: usize = match nl {
            Some(e) => e,
            None => n,
        };
        proof {
            lemma_nl_skip(content@, pos as int, lend as int);
            match nl {
                Some(_) => assert(find_nl_from(content@, pos as int) == Some(lend as int)),
                None => assert(find_nl_from(content@, pos as int) is None),
            }
        }
        let line = content.substring_char(pos, lend);
        let ghost old_lines_done = lines_done;
        let ghost old_srcs = srcs@;
        proof {
            lines_done = lines_done.push(line@);
        }
        let t = trim_str(line);
        let keep = if t.as_str().unicode_len() == 0 {
            false
        } else {
            !contains_str(&srcs, &t)
        };
        if keep {
            srcs.push(t);
        }
        proof {
            lemma_clean_dedup_step(old_lines_done, line@);
            if keep {
                assert(str_views(srcs@) =~= str_views(old_srcs).push(trim_spec(line@)));
            }
            assert(str_views(srcs@) == dedup_spec(cleaned_lines(lines_done)));
        }
        if lend < n {
            proof {
                assert(lines_from(content@, pos as int) == seq![line@] + lines_from(
                    content@,
                    lend + 1,
                ));
                assert(old_lines_done + lines_from(content@, pos as int) =~= lines_done
                    + lines_from(content@, lend + 1));
            }
            pos = lend + 1;
        } else {
            proof {
                assert(lines_from(content@, pos as int) =~= seq![line@]);
                assert(old_lines_done + lines_from(content@, pos as int) =~= lines_done);
            }
            pos = n;
            done = true;
        }
    }
    // compile each surviving source
    let ghost spec_srcs = pattern_sources_spec(content@);
    proof {
        assert(str_views(srcs@) == spec_srcs);
    }
    let m: usize = srcs.len();
    let mut out: Vec<Pattern> = Vec::new();
    let mut i: usize = 0;
    while i < m
        invariant
            i <= m,
            m == srcs@.len(),
            str_views(srcs@) == spec_srcs,
            spec_srcs == pattern_sources_spec(content@),
            pat_sources(out@) == spec_srcs.take(i as int),
            forall|k: int| 0 <= k < i ==> regex_ok(spec_srcs[k]),
        decreases m - i,
    {
        let src = &srcs[i];
        proof {
            assert(str_views(srcs@)[i as int] == srcs@[i as int]@);
            assert(spec_srcs.len() == srcs@.len());
        }
        let ghost old_out = out@;
        match compile_pattern(src.as_str()) {
            Some(p) => {
                proof {
                    assert(p.source_view() == spec_srcs[i as int]);
                }
                out.push(p);
                proof {
                    assert(pat_sources(out@) =~= pat_sources(old_out).push(
                        spec_srcs[i as int],
                    ));
                    assert(pat_sources(out@) =~= spec_srcs.take(i + 1 as int));
                }
            },
            None => {
                proof {
                    assert(0 <= i < spec_srcs.len());
                    assert(pattern_sources_spec(content@)[i as int] == spec_srcs[i as int]);
                    assert(!regex_ok(pattern_sources_spec(content@)[i as int]));
                }
                return Err(PatternError::InvalidPattern);
            },
        }
        i = i + 1;
    }
    proof {
        assert(spec_srcs.take(m as int) =~= spec_srcs);
        assert forall|k: int| 0 <= k < pattern_sources_spec(content@).len() implies regex_ok(
            #[trigger] pattern_sources_spec(content@)[k],
        ) by {
            assert(pattern_sources_spec(content@)[k] == spec_srcs[k]);
            assert(regex_ok(spec_srcs[k]));
        };
    }
    Ok(out)
}

/// The built-in pattern list used when no pattern file is supplied: the
/// single expression matching a path segment of digits.  `None` only if
/// that expression failed to compile.
pub fn default_patterns() -> (r: Option<Vec<Pattern>>)
    ensures
        r is Some <==> regex_ok("/\\d+"@),
        r matches Some(ps) ==> pat_sources(ps@) == seq!["/\\d+"@],
{
    match compile_pattern("/\\d+") {
        Some(p) => {
            let mut v: Vec<Pattern> = Vec::new();
            v.push(p);
            proof {
                assert(pat_sources(v@) =~= seq!["/\\d+"@]);
            }
            Some(v)
        },
        None => None,
    }
}

} // verus!
