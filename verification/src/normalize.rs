//! URL normalization: the canonical form under which two raw URLs are
//! compared for crawl-target identity.  A URL is normalized by stripping
//! any fragment (`#...`), removing trailing slashes, and lower-casing
//! the rest with the full Unicode case mapping.  Normalization is
//! idempotent, and insensitive to case and to trailing slashes.
use vstd::prelude::*;

verus! {

/// The lower-case form of one character: ASCII capital letters fold to
/// their lower-case form, every other character is kept as it is.
pub open spec fn lower_char_spec(c: char) -> char {
    if 'A' <= c && c <= 'Z' {
        (((c as u8) + 32) as char)
    } else {
        c
    }
}

/// A sequence of characters, lower-cased pointwise.
pub open spec fn lower_seq(s: Seq<char>) -> Seq<char> {
    Seq::new(s.len(), |i: int| lower_char_spec(s[i]))
}

/// Index of the first occurrence of `c` in `s`, if any.
pub open spec fn find_char(s: Seq<char>, c: char) -> Option<int>
    decreases s.len(),
{
    if s.len() == 0 {
        None
    } else if s[0] == c {
        Some(0int)
    } else {
        match find_char(s.drop_first(), c) {
            Some(i) => Some(i + 1),
            None => None,
        }
    }
}

/// `find_char` returns the index of the first occurrence: nothing before
/// it is an occurrence, and `None` means there is none at all.
pub proof fn lemma_find_char(s: Seq<char>, c: char)
    ensures
        match find_char(s, c) {
            Some(i) => 0 <= i < s.len() && s[i] == c && (forall|j: int|
                0 <= j < i ==> s[j] != c),
            None => forall|j: int| 0 <= j < s.len() ==> s[j] != c,
        },
    decreases s.len(),
{
    if s.len() > 0 && s[0] != c {
        let rest = s.drop_first();
        lemma_find_char(rest, c);
        assert(forall|j: int| 0 <= j < rest.len() ==> rest[j] == s[j + 1]);
        match find_char(rest, c) {
            Some(i) => {
                assert(find_char(s, c) == Some(i + 1));
                assert(s[i + 1] == rest[i]);
                assert(forall|j: int| 1 <= j < i + 1 ==> s[j] == rest[j - 1] && rest[j - 1] != c);
            },
            None => {
                assert(forall|j: int| 1 <= j < s.len() ==> s[j] == rest[j - 1] && rest[j - 1] != c);
            },
        }
    }
}

/// The characterization above pins `find_char` down: an index that is an
/// occurrence with none before it is the result.
pub proof fn lemma_find_char_unique(s: Seq<char>, c: char, i: int)
    requires
        0 <= i < s.len(),
        s[i] == c,
        forall|j: int| 0 <= j < i ==> s[j] != c,
    ensures
        find_char(s, c) == Some(i),
{
    lemma_find_char(s, c);
}

/// `None` is forced when no occurrence exists.
pub proof fn lemma_find_char_none(s: Seq<char>, c: char)
    requires
        forall|j: int| 0 <= j < s.len() ==> s[j] != c,
    ensures
        find_char(s, c) is None,
{
    lemma_find_char(s, c);
}

/// Everything up to, and not including, the first `#`.
pub open spec fn strip_fragment(s: Seq<char>) -> Seq<char> {
    match find_char(s, '#') {
        Some(i) => s.take(i),
        None => s,
    }
}

/// `s` without its trailing slashes.
pub open spec fn trim_slashes(s: Seq<char>) -> Seq<char>
    decreases s.len(),
{
    if s.len() > 0 && s.last() == '/' {
        trim_slashes(s.drop_last())
    } else {
        s
    }
}

/// The lower-case form of a sequence of characters, as
/// `str::to_lowercase` folds it: the full Unicode case mapping, a
/// function of the characters alone.
pub uninterp spec fn lower_of(s: Seq<char>) -> Seq<char>;

/// Whether `c` lies in the ASCII range.
pub open spec fn is_ascii_char(c: char) -> bool {
    (c as u32) < 128
}

/// Whether every character lies in the ASCII range.
pub open spec fn all_ascii_chars(s: Seq<char>) -> bool {
    forall|j: int| 0 <= j < s.len() ==> is_ascii_char(#[trigger] s[j])
}

/// The canonical form of a raw URL: fragment stripped, trailing slashes
/// removed, the rest lower-cased by the full Unicode mapping.  Two raw
/// URLs that normalize identically are the same crawl target.
pub open spec fn normalize_spec(s: Seq<char>) -> Seq<char> {
    lower_of(trim_slashes(strip_fragment(s)))
}

/// Lower-casing a character twice is the same as doing it once, and it
/// neither creates nor destroys a `#` or a `/`.
pub proof fn lemma_lower_char_fixed(c: char)
    ensures
        lower_char_spec(lower_char_spec(c)) == lower_char_spec(c),
        (lower_char_spec(c) == '#') == (c == '#'),
        (lower_char_spec(c) == '/') == (c == '/'),
{
}

/// The result of `trim_slashes` does not end with a slash.
pub proof fn lemma_trim_no_trailing(s: Seq<char>)
    ensures
        trim_slashes(s).len() == 0 || trim_slashes(s).last() != '/',
    decreases s.len(),
{
    if s.len() > 0 && s.last() == '/' {
        lemma_trim_no_trailing(s.drop_last());
    }
}

/// `trim_slashes` yields a prefix of its argument.
pub proof fn lemma_trim_prefix(s: Seq<char>)
    ensures
        trim_slashes(s).len() <= s.len(),
        trim_slashes(s) == s.take(trim_slashes(s).len() as int),
    decreases s.len(),
{
    if s.len() > 0 && s.last() == '/' {
        lemma_trim_prefix(s.drop_last());
        let k = trim_slashes(s).len() as int;
        assert(s.drop_last().take(k) =~= s.take(k));
    } else {
        assert(s.take(s.len() as int) =~= s);
    }
}

/// The result of `strip_fragment` holds no `#`.
pub proof fn lemma_strip_no_hash(s: Seq<char>)
    ensures
        forall|j: int| 0 <= j < strip_fragment(s).len() ==> strip_fragment(s)[j] != '#',
{
    lemma_find_char(s, '#');
}

/// A trailing slash does not change the normalized form.
pub proof fn lemma_normalize_trailing_slash(s: Seq<char>)
    ensures
        normalize_spec(s.push('/')) == normalize_spec(s),
{
    let p = s.push('/');
    lemma_find_char(s, '#');
    match find_char(s, '#') {
        Some(i) => {
            assert(p[i] == '#');
            assert(forall|j: int| 0 <= j < i ==> p[j] == s[j]);
            lemma_find_char_unique(p, '#', i);
            assert(p.take(i) =~= s.take(i));
        },
        None => {
            assert(forall|j: int| 0 <= j < p.len() ==> p[j] != '#');
            lemma_find_char_none(p, '#');
            assert(strip_fragment(p) == p);
            assert(p.last() == '/');
            assert(p.drop_last() =~= s);
            assert(trim_slashes(p) == trim_slashes(s));
        },
    }
}

/// Two sequences with the same lower-cased form have the same first `#`.
proof fn lemma_find_hash_lower(s: Seq<char>, t: Seq<char>)
    requires
        lower_seq(s) == lower_seq(t),
    ensures
        find_char(s, '#') == find_char(t, '#'),
{
    assert(lower_seq(s).len() == s.len());
    assert(lower_seq(t).len() == t.len());
    assert(s.len() == t.len());
    assert forall|j: int| 0 <= j < s.len() implies (s[j] == '#') == (t[j] == '#') by {
        assert(lower_seq(s)[j] == lower_char_spec(s[j]));
        assert(lower_seq(t)[j] == lower_char_spec(t[j]));
        assert(lower_seq(s)[j] == lower_seq(t)[j]);
        lemma_lower_char_fixed(s[j]);
        lemma_lower_char_fixed(t[j]);
    };
    lemma_find_char(s, '#');
    match find_char(s, '#') {
        Some(i) => {
            lemma_find_char_unique(t, '#', i);
        },
        None => {
            lemma_find_char_none(t, '#');
        },
    }
}

/// Trimming slashes respects the lower-cased form.
proof fn lemma_trim_lower(x: Seq<char>, y: Seq<char>)
    requires
        lower_seq(x) == lower_seq(y),
    ensures
        lower_seq(trim_slashes(x)) == lower_seq(trim_slashes(y)),
    decreases x.len(),
{
    assert(lower_seq(x).len() == x.len());
    assert(lower_seq(y).len() == y.len());
    assert(x.len() == y.len());
    if x.len() > 0 {
        assert(lower_seq(x)[x.len() - 1] == lower_char_spec(x.last()));
        assert(lower_seq(y)[x.len() - 1] == lower_char_spec(y.last()));
        lemma_lower_char_fixed(x.last());
        lemma_lower_char_fixed(y.last());
        assert((x.last() == '/') == (y.last() == '/'));
        if x.last() == '/' {
            assert(lower_seq(x.drop_last()) =~= lower_seq(y.drop_last())) by {
                assert forall|j: int| 0 <= j < x.len() - 1 implies
                    lower_seq(x.drop_last())[j] == lower_seq(y.drop_last())[j] by {
                    assert(lower_seq(x.drop_last())[j] == lower_char_spec(x[j]));
                    assert(lower_seq(y.drop_last())[j] == lower_char_spec(y[j]));
                    assert(lower_seq(x)[j] == lower_char_spec(x[j]));
                    assert(lower_seq(y)[j] == lower_char_spec(y[j]));
                    assert(lower_seq(x)[j] == lower_seq(y)[j]);
                };
            }
            lemma_trim_lower(x.drop_last(), y.drop_last());
        }
    }
}

/// Case does not matter: two strings that agree up to ASCII letter
/// case have the same ASCII fold of their fragment-stripped,
/// slash-trimmed core.  With `normalize_url`'s clause for ASCII input,
/// two such URLs normalize identically.
pub proof fn lemma_ascii_case_insensitive(s: Seq<char>, t: Seq<char>)
    requires
        lower_seq(s) == lower_seq(t),
    ensures
        lower_seq(trim_slashes(strip_fragment(s))) == lower_seq(trim_slashes(strip_fragment(t))),
{
    lemma_find_hash_lower(s, t);
    let a = strip_fragment(s);
    let b = strip_fragment(t);
    assert(lower_seq(s).len() == s.len());
    assert(lower_seq(t).len() == t.len());
    assert(s.len() == t.len());
    assert(lower_seq(a) =~= lower_seq(b)) by {
        lemma_find_char(s, '#');
        assert(a.len() == b.len());
        assert forall|j: int| 0 <= j < a.len() implies
            lower_seq(a)[j] == lower_seq(b)[j] by {
            assert(lower_seq(a)[j] == lower_char_spec(a[j]));
            assert(lower_seq(b)[j] == lower_char_spec(b[j]));
            assert(a[j] == s[j]);
            assert(b[j] == t[j]);
            assert(lower_seq(s)[j] == lower_char_spec(s[j]));
            assert(lower_seq(t)[j] == lower_char_spec(t[j]));
            assert(lower_seq(s)[j] == lower_seq(t)[j]);
        };
    }
    lemma_trim_lower(a, b);
}

/// Relies on `String::push`, which appends the given character to the
/// end of the string.
#[verifier::external_body]
pub(crate) fn push_char(s: &mut String, c: char)
    ensures
        final(s)@ == old(s)@.push(c),
{
    s.push(c);
}

/// Index of the first occurrence of `c` in `s`, if any.
pub fn find_char_at(s: &str, c: char) -> (r: Option<usize>)
    ensures
        match r {
            Some(i) => find_char(s@, c) == Some(i as int),
            None => find_char(s@, c) is None,
        },
{
    let n: usize = s.unicode_len();
    let mut i: usize = 0;
    let mut res: Option<usize> = None;
    while i < n && res.is_none()
        invariant
            i <= n,
            n == s@.len(),
            match res {
                Some(k) => k < i && s@[k as int] == c && (forall|j: int|
                    0 <= j < k ==> s@[j] != c),
                None => forall|j: int| 0 <= j < i ==> s@[j] != c,
            },
        decreases n - i,
    {
        if s.get_char(i) == c {
            res = Some(i);
        }
        i = i + 1;
    }
    proof {
        match res {
            Some(k) => lemma_find_char_unique(s@, c, k as int),
            None => lemma_find_char_none(s@, c),
        }
    }
    res
}

/// The URL up to, and not including, its first `#`.
pub fn strip_fragment_str(u: &str) -> (r: String)
    ensures
        r@ == strip_fragment(u@),
{
    let n: usize = u.unicode_len();
    match find_char_at(u, '#') {
        Some(i) => {
            proof {
                lemma_find_char(u@, '#');
            }
            let pre = u.substring_char(0, i);
            proof {
                assert(pre@ =~= u@.take(i as int));
            }
            pre.to_owned()
        },
        None => u.to_owned(),
    }
}

/// Relies on `str::to_lowercase`: the lower-case form of a string
/// depends on its characters alone.  Beside the name stand only what
/// the Unicode case mapping plainly gives: lower-casing a lower-cased
/// string changes nothing, no character folds to `#`, no fold moves a
/// slash to or from the end, and on ASCII text exactly the letters `A`
/// to `Z` fold.
#[verifier::external_body]
fn lower_str(s: &str) -> (r: String)
    ensures
        r@ == lower_of(s@),
        lower_of(r@) == r@,
        find_char(s@, '#') is None ==> find_char(r@, '#') is None,
        (r@.len() > 0 && r@.last() == '/') == (s@.len() > 0 && s@.last() == '/'),
        all_ascii_chars(s@) ==> r@ == lower_seq(s@),
{
    s.to_lowercase()
}

/// Normalize a raw URL for dedup comparison: strip any fragment, remove
/// trailing slashes, lower-case the rest.  Malformed input is normalized
/// best-effort; there is no error path.  Normalizing the result again
/// changes nothing, and on ASCII input the result is the pointwise
/// ASCII fold of the fragment-stripped, slash-trimmed URL.
pub fn normalize_url(url: &str) -> (r: String)
    ensures
        r@ == normalize_spec(url@),
        normalize_spec(r@) == r@,
        all_ascii_chars(url@) ==> r@ == lower_seq(trim_slashes(strip_fragment(url@))),
{
    let n: usize = url.unicode_len();
    let end0: usize = match find_char_at(url, '#') {
        Some(i) => i,
        None => n,
    };
    proof {
        lemma_find_char(url@, '#');
        assert(strip_fragment(url@) =~= url@.take(end0 as int));
        assert(forall|j: int| 0 <= j < end0 ==> url@[j] != '#');
    }
    let mut end: usize = end0;
    while end > 0 && url.get_char(end - 1) == '/'
        invariant
            end <= end0 <= n,
            n == url@.len(),
            forall|j: int| 0 <= j < end0 ==> url@[j] != '#',
            trim_slashes(url@.take(end0 as int)) == trim_slashes(url@.take(end as int)),
        decreases end,
    {
        proof {
            assert(url@.take(end as int).last() == '/');
            assert(url@.take(end as int).drop_last() =~= url@.take(end - 1));
        }
        end = end - 1;
    }
    proof {
        assert(trim_slashes(url@.take(end as int)) == url@.take(end as int));
    }
    let core = url.substring_char(0, end);
    proof {
        assert(core@ =~= url@.take(end as int));
        assert(core@ == trim_slashes(strip_fragment(url@)));
        assert(forall|j: int| 0 <= j < core@.len() ==> core@[j] != '#');
        lemma_find_char_none(core@, '#');
        assert(core@.len() == 0 || core@.last() != '/');
    }
    let r = lower_str(core);
    proof {
        assert(r@ == normalize_spec(url@));
        assert(strip_fragment(r@) == r@);
        assert(trim_slashes(r@) == r@);
        assert(normalize_spec(r@) == r@);
        if all_ascii_chars(url@) {
            assert forall|j: int| 0 <= j < core@.len() implies is_ascii_char(
                #[trigger] core@[j],
            ) by {
                assert(core@[j] == url@[j]);
                assert(is_ascii_char(url@[j]));
            };
            assert(all_ascii_chars(core@));
            assert(r@ == lower_seq(core@));
        }
    }
    r
}

} // verus!
