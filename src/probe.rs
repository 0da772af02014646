//! What a HEAD response says of a resource: its final URL, size, range
//! support and a file name.

use vstd::prelude::*;
use vstd::string::*;

use crate::error::EngineError;
use crate::names::{extract_filename_from_url, url_filename};
use crate::text::{decimal, parse_u64, parse_unsigned};

verus! {

/// What probing a URL found.
pub struct UrlInfo {
    pub url: String,
    pub filename: String,
    pub size: Option<u64>,
    pub resumable: bool,
}

/// A 2xx status.
pub open spec fn is_success(status: u16) -> bool {
    200 <= status <= 299
}

pub open spec fn occurs_at(s: Seq<char>, pat: Seq<char>, i: int) -> bool {
    0 <= i && i + pat.len() <= s.len() && s.subrange(i, i + pat.len()) == pat
}

/// Index of the first occurrence of `pat` in `s` at or after `from`.
#[verifier::opaque]
pub open spec fn first_from(s: Seq<char>, pat: Seq<char>, from: int) -> Option<int> {
    if exists|i: int| from <= i && #[trigger] occurs_at(s, pat, i) {
        Some(
            choose|i: int|
                from <= i && #[trigger] occurs_at(s, pat, i) && forall|j: int|
                    from <= j < i ==> !occurs_at(s, pat, j),
        )
    } else {
        None
    }
}

pub open spec fn strip_leading_quotes(s: Seq<char>) -> Seq<char>
    decreases s.len(),
{
    if s.len() > 0 && s[0] == '"' {
        strip_leading_quotes(s.drop_first())
    } else {
        s
    }
}

pub open spec fn strip_trailing_quotes(s: Seq<char>) -> Seq<char>
    decreases s.len(),
{
    if s.len() > 0 && s.last() == '"' {
        strip_trailing_quotes(s.drop_last())
    } else {
        s
    }
}

/// `s` without the double quotes at either end.
pub open spec fn trim_quotes(s: Seq<char>) -> Seq<char> {
    strip_trailing_quotes(strip_leading_quotes(s))
}

pub open spec fn filename_key() -> Seq<char> {
    seq!['f', 'i', 'l', 'e', 'n', 'a', 'm', 'e', '=']
}

/// The `filename=` parameter of a Content-Disposition value: what follows
/// the first `filename=` up to the next one, without surrounding quotes;
/// absent when empty.
pub open spec fn disposition_filename(v: Seq<char>) -> Option<Seq<char>> {
    match first_from(v, filename_key(), 0) {
        None => None,
        Some(i) => {
            let from = i + 9;
            let to = match first_from(v, filename_key(), from) {
                Some(j) => j,
                None => v.len() as int,
            };
            let name = trim_quotes(v.subrange(from, to));
            if name.len() > 0 {
                Some(name)
            } else {
                None
            }
        },
    }
}

/// The name a probe settles on: the Content-Disposition parameter, else the
/// final URL's file name, else the requested URL's, else `download`.
pub open spec fn probe_filename(cd: Option<Seq<char>>, final_url: Seq<char>, url: Seq<char>) -> Seq<
    char,
> {
    let header = match cd {
        Some(v) => disposition_filename(v),
        None => None,
    };
    match header {
        Some(f) => f,
        None => match url_filename(final_url) {
            Some(f) => f,
            None => match url_filename(url) {
                Some(f) => f,
                None => "download"@,
            },
        },
    }
}

pub open spec fn opt_view(o: Option<String>) -> Option<Seq<char>> {
    match o {
        Some(s) => Some(s@),
        None => None,
    }
}

proof fn lemma_first_from_some(s: Seq<char>, pat: Seq<char>, from: int, i: int)
    requires
        from <= i,
        occurs_at(s, pat, i),
        forall|j: int| from <= j < i ==> !#[trigger] occurs_at(s, pat, j),
    ensures
        first_from(s, pat, from) == Some(i),
{
    reveal(first_from);
    let c = choose|c: int|
        from <= c && #[trigger] occurs_at(s, pat, c) && forall|j: int|
            from <= j < c ==> !occurs_at(s, pat, j);
    assert(from <= c && occurs_at(s, pat, c));
    if c < i {
        assert(!occurs_at(s, pat, c));
    }
    if c > i {
        assert(!occurs_at(s, pat, i));
    }
}

fn matches_at(s: &str, pat: &str, i: usize) -> (r: bool)
    requires
        i + pat@.len() <= s@.len(),
    ensures
        r == occurs_at(s@, pat@, i as int),
{
    let n = s.unicode_len();
    let m = pat.unicode_len();
    let mut k: usize = 0;
    while k < m
        invariant
            n == s@.len(),
            m == pat@.len(),
            i + m <= s@.len(),
            k <= m,
            forall|t: int| 0 <= t < k ==> s@[i + t] == pat@[t],
        decreases m - k,
    {
        if s.get_char(i + k) != pat.get_char(k) {
            proof {
                assert(s@.subrange(i as int, i + m)[k as int] == s@[i + k]);
            }
            return false;
        }
        k = k + 1;
    }
    assert(s@.subrange(i as int, i + m) =~= pat@);
    true
}

pub(crate) fn find_from(s: &str, pat: &str, from: usize) -> (r: Option<usize>)
    requires
        from <= s@.len(),
    ensures
        r matches Some(i) ==> first_from(s@, pat@, from as int) == Some(i as int),
        r is None ==> first_from(s@, pat@, from as int) is None,
        r is None ==> forall|j: int| from <= j ==> !#[trigger] occurs_at(s@, pat@, j),
        r matches Some(i) ==> from <= i && occurs_at(s@, pat@, i as int),
{
    let n = s.unicode_len();
    let m = pat.unicode_len();
    if m == 0 {
        proof {
            assert(s@.subrange(from as int, from as int) =~= pat@);
            lemma_first_from_some(s@, pat@, from as int, from as int);
        }
        return Some(from);
    }
    if m > n || from > n - m {
        proof {
            reveal(first_from);
            assert forall|j: int| from <= j implies !#[trigger] occurs_at(s@, pat@, j) by {}
        }
        return None;
    }
    let mut i: usize = from;
    while i <= n - m
        invariant
            n == s@.len(),
            m == pat@.len(),
            0 < m <= n,
            from <= i <= n - m + 1,
            forall|j: int| from <= j < i ==> !#[trigger] occurs_at(s@, pat@, j),
        decreases n - m + 1 - i,
    {
        if matches_at(s, pat, i) {
            proof {
                lemma_first_from_some(s@, pat@, from as int, i as int);
            }
            return Some(i);
        }
        i = i + 1;
    }
    proof {
        reveal(first_from);
        assert forall|j: int| from <= j implies !#[trigger] occurs_at(s@, pat@, j) by {}
    }
    None
}

proof fn lemma_strip_leading(s: Seq<char>, a: int)
    requires
        0 <= a <= s.len(),
        forall|j: int| 0 <= j < a ==> s[j] == '"',
        a < s.len() ==> s[a] != '"',
    ensures
        strip_leading_quotes(s) == s.subrange(a, s.len() as int),
    decreases s.len(),
{
    if a > 0 {
        lemma_strip_leading(s.drop_first(), a - 1);
        assert(s.drop_first().subrange(a - 1, s.len() - 1) =~= s.subrange(a, s.len() as int));
    } else {
        assert(s.subrange(0, s.len() as int) =~= s);
    }
}

proof fn lemma_strip_trailing(s: Seq<char>, b: int)
    requires
        0 <= b <= s.len(),
        forall|j: int| b <= j < s.len() ==> s[j] == '"',
        b > 0 ==> s[b - 1] != '"',
    ensures
        strip_trailing_quotes(s) == s.subrange(0, b),
    decreases s.len(),
{
    if b < s.len() {
        lemma_strip_trailing(s.drop_last(), b);
        assert(s.drop_last().subrange(0, b) =~= s.subrange(0, b));
    } else {
        assert(s.subrange(0, b) =~= s);
    }
}

pub(crate) fn trim_quotes_of(s: &str) -> (r: String)
    ensures
        r@ == trim_quotes(s@),
{
    let n = s.unicode_len();
    let mut a: usize = 0;
    while a < n && s.get_char(a) == '"'
        invariant
            n == s@.len(),
            a <= n,
            forall|j: int| 0 <= j < a ==> s@[j] == '"',
        decreases n - a,
    {
        a = a + 1;
    }
    proof {
        lemma_strip_leading(s@, a as int);
    }
    let rest = s.substring_char(a, n);
    let m = rest.unicode_len();
    let mut b: usize = m;
    while b > 0 && rest.get_char(b - 1) == '"'
        invariant
            m == rest@.len(),
            b <= m,
            forall|j: int| b <= j < m ==> rest@[j] == '"',
        decreases b,
    {
        b = b - 1;
    }
    proof {
        lemma_strip_trailing(rest@, b as int);
    }
    String::from_str(rest.substring_char(0, b))
}

/// The `filename=` parameter of a Content-Disposition value, if non-empty.
pub fn filename_from_disposition(v: &str) -> (r: Option<String>)
    ensures
        match disposition_filename(v@) {
            Some(f) => r is Some && r->0@ == f,
            None => r is None,
        },
{
    proof {
        reveal_strlit("filename=");
    }
    let key = "filename=";
    assert(key@ == filename_key());
    let ghost vv = v@;
    let n = v.unicode_len();
    match find_from(v, key, 0) {
        None => {
            assert(first_from(vv, filename_key(), 0) is None);
            None
        },
        Some(i) => {
            assert(first_from(vv, filename_key(), 0) == Some(i as int));
            let from = i + 9;
            let to = match find_from(v, key, from) {
                Some(j) => j,
                None => n,
            };
            let ghost expected_to = match first_from(vv, filename_key(), from as int) {
                Some(j) => j,
                None => vv.len() as int,
            };
            assert(to == expected_to);
            let part = v.substring_char(from, to);
            let name = trim_quotes_of(part);
            assert(name@ == trim_quotes(vv.subrange(from as int, to as int)));
            if name.unicode_len() > 0 {
                Some(name)
            } else {
                None
            }
        },
    }
}

/// Interprets a HEAD response: `status`, the URL reached after redirects,
/// and the Content-Length, Accept-Ranges and Content-Disposition values
/// (absent when missing or not text).
pub fn probe_outcome(
    url: &str,
    status: u16,
    final_url: &str,
    content_length: &Option<String>,
    accept_ranges: &Option<String>,
    content_disposition: &Option<String>,
) -> (r: Result<UrlInfo, EngineError>)
    ensures
        !is_success(status) <==> r is Err,
        r is Err ==> r->Err_0 is ProbeFailed,
        r matches Ok(info) ==> {
            &&& info.url@ == final_url@
            &&& info.size == match content_length {
                Some(v) => match parse_unsigned(v@, u64::MAX as nat) {
                    Some(n) => Some(n as u64),
                    None => None,
                },
                None => None,
            }
            &&& info.resumable == (opt_view(*accept_ranges) == Some("bytes"@))
            &&& info.filename@ == probe_filename(opt_view(*content_disposition), final_url@, url@)
        },
{
    if status < 200 || status > 299 {
        let msg = String::from_str("HTTP error: ").concat(decimal(status as u64).as_str());
        return Err(EngineError::ProbeFailed(msg));
    }
    let size = match content_length {
        Some(v) => parse_u64(v.as_str()),
        None => None,
    };
    proof {
        reveal_strlit("bytes");
    }
    let bytes = String::from_str("bytes");
    let resumable = match accept_ranges {
        Some(v) => *v == bytes,
        None => false,
    };
    let from_header = match content_disposition {
        Some(v) => filename_from_disposition(v.as_str()),
        None => None,
    };
    let filename = match from_header {
        Some(f) => f,
        None => match extract_filename_from_url(final_url) {
            Some(f) => f,
            None => match extract_filename_from_url(url) {
                Some(f) => f,
                None => String::from_str("download"),
            },
        },
    };
    Ok(UrlInfo { url: String::from_str(final_url), filename, size, resumable })
}

} // verus!
