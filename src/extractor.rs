//! Reading the extractor's output lines: where it writes the file, and when
//! it merges.

use vstd::prelude::*;
use vstd::string::*;

use crate::probe::{find_from, first_from, occurs_at};

verus! {

/// Unicode's White_Space characters, which `str::trim` removes.
pub open spec fn is_white_space(c: char) -> bool {
    ('\u{9}' <= c && c <= '\u{d}') || c == ' ' || c == '\u{85}' || c == '\u{a0}' || c == '\u{1680}' || (
    '\u{2000}' <= c && c <= '\u{200a}') || c == '\u{2028}' || c == '\u{2029}' || c == '\u{202f}' || c
        == '\u{205f}' || c == '\u{3000}'
}

fn white_space(c: char) -> (r: bool)
    ensures
        r == is_white_space(c),
{
    ('\u{9}' <= c && c <= '\u{d}') || c == ' ' || c == '\u{85}' || c == '\u{a0}' || c == '\u{1680}' || (
    '\u{2000}' <= c && c <= '\u{200a}') || c == '\u{2028}' || c == '\u{2029}' || c == '\u{202f}' || c
        == '\u{205f}' || c == '\u{3000}'
}

pub open spec fn trim_start_ws(s: Seq<char>) -> Seq<char>
    decreases s.len(),
{
    if s.len() > 0 && is_white_space(s[0]) {
        trim_start_ws(s.drop_first())
    } else {
        s
    }
}

pub open spec fn trim_end_ws(s: Seq<char>) -> Seq<char>
    decreases s.len(),
{
    if s.len() > 0 && is_white_space(s.last()) {
        trim_end_ws(s.drop_last())
    } else {
        s
    }
}

/// `s` without white space at either end.
pub open spec fn trim_ws(s: Seq<char>) -> Seq<char> {
    trim_end_ws(trim_start_ws(s))
}

proof fn lemma_trim_start(s: Seq<char>, a: int)
    requires
        0 <= a <= s.len(),
        forall|j: int| 0 <= j < a ==> is_white_space(s[j]),
        a < s.len() ==> !is_white_space(s[a]),
    ensures
        trim_start_ws(s) == s.subrange(a, s.len() as int),
    decreases s.len(),
{
    if a > 0 {
        lemma_trim_start(s.drop_first(), a - 1);
        assert(s.drop_first().subrange(a - 1, s.len() - 1) =~= s.subrange(a, s.len() as int));
    } else {
        assert(s.subrange(0, s.len() as int) =~= s);
    }
}

proof fn lemma_trim_end(s: Seq<char>, b: int)
    requires
        0 <= b <= s.len(),
        forall|j: int| b <= j < s.len() ==> is_white_space(s[j]),
        b > 0 ==> !is_white_space(s[b - 1]),
    ensures
        trim_end_ws(s) == s.subrange(0, b),
    decreases s.len(),
{
    if b < s.len() {
        lemma_trim_end(s.drop_last(), b);
        assert(s.drop_last().subrange(0, b) =~= s.subrange(0, b));
    } else {
        assert(s.subrange(0, b) =~= s);
    }
}

/// `s` without white space at either end, as `str::trim` gives it.
pub fn trim(s: &str) -> (r: String)
    ensures
        r@ == trim_ws(s@),
{
    let n = s.unicode_len();
    let mut a: usize = 0;
    while a < n && white_space(s.get_char(a))
        invariant
            n == s@.len(),
            a <= n,
            forall|j: int| 0 <= j < a ==> is_white_space(s@[j]),
        decreases n - a,
    {
        a = a + 1;
    }
    proof {
        lemma_trim_start(s@, a as int);
    }
    let rest = s.substring_char(a, n);
    let m = rest.unicode_len();
    let mut b: usize = m;
    while b > 0 && white_space(rest.get_char(b - 1))
        invariant
            m == rest@.len(),
            b <= m,
            forall|j: int| b <= j < m ==> is_white_space(rest@[j]),
        decreases b,
    {
        b = b - 1;
    }
    proof {
        lemma_trim_end(rest@, b as int);
    }
    String::from_str(rest.substring_char(0, b))
}

/// What follows the first `pat` in `line`, up to its next occurrence.
pub open spec fn field_after(line: Seq<char>, pat: Seq<char>) -> Option<Seq<char>> {
    match first_from(line, pat, 0) {
        None => None,
        Some(i) => {
            let from = i + pat.len();
            let to = match first_from(line, pat, from) {
                Some(j) => j,
                None => line.len() as int,
            };
            Some(line.subrange(from, to))
        },
    }
}

fn text_after(line: &str, pat: &str) -> (r: Option<String>)
    ensures
        match field_after(line@, pat@) {
            Some(f) => r is Some && r->0@ == f,
            None => r is None,
        },
{
    let n = line.unicode_len();
    let m = pat.unicode_len();
    match find_from(line, pat, 0) {
        None => None,
        Some(i) => {
            let from = i + m;
            let to = match find_from(line, pat, from) {
                Some(j) => j,
                None => n,
            };
            Some(String::from_str(line.substring_char(from, to)))
        },
    }
}

/// The file named in a `Destination:` line, trimmed.
pub open spec fn destination_spec(line: Seq<char>) -> Option<Seq<char>> {
    match field_after(line, "Destination:"@) {
        Some(f) => Some(trim_ws(f)),
        None => None,
    }
}

pub fn destination_of(line: &str) -> (r: Option<String>)
    ensures
        match destination_spec(line@) {
            Some(f) => r is Some && r->0@ == f,
            None => r is None,
        },
{
    match text_after(line, "Destination:") {
        Some(f) => Some(trim(f.as_str())),
        None => None,
    }
}

/// The file a `Merging formats into "<file>"` line names: what follows
/// `into`, trimmed and without quotes; absent when empty.
pub open spec fn merge_target_spec(line: Seq<char>) -> Option<Seq<char>> {
    if exists|i: int| #[trigger] occurs_at(line, "Merging formats into"@, i) {
        match field_after(line, "into"@) {
            Some(f) => {
                let name = crate::probe::trim_quotes(trim_ws(f));
                if name.len() > 0 {
                    Some(name)
                } else {
                    None
                }
            },
            None => None,
        }
    } else {
        None
    }
}

pub fn merge_target_of(line: &str) -> (r: Option<String>)
    ensures
        match merge_target_spec(line@) {
            Some(f) => r is Some && r->0@ == f,
            None => r is None,
        },
{
    let marker = find_from(line, "Merging formats into", 0);
    if marker.is_none() {
        proof {
            reveal(first_from);
        }
        return None;
    }
    match text_after(line, "into") {
        Some(f) => {
            let t = trim(f.as_str());
            let name = crate::probe::trim_quotes_of(t.as_str());
            if name.unicode_len() > 0 {
                Some(name)
            } else {
                None
            }
        },
        None => None,
    }
}

/// Whether a line announces that formats are being merged.
pub fn announces_merge(line: &str) -> (r: bool)
    ensures
        r == (exists|i: int| #[trigger] occurs_at(line@, "[Merger]"@, i)) || (exists|i: int|
            #[trigger] occurs_at(line@, "Merging formats"@, i)),
{
    let a = find_from(line, "[Merger]", 0);
    let b = find_from(line, "Merging formats", 0);
    proof {
        reveal(first_from);
    }
    a.is_some() || b.is_some()
}

/// Splitting at every white-space character.
pub open spec fn split_ws(s: Seq<char>) -> Seq<Seq<char>>
    decreases s.len(),
{
    if s.len() == 0 {
        seq![Seq::empty()]
    } else {
        let rest = split_ws(s.drop_last());
        if is_white_space(s.last()) {
            rest.push(Seq::empty())
        } else {
            rest.update(rest.len() - 1, rest.last().push(s.last()))
        }
    }
}

proof fn lemma_split_ws_nonempty(s: Seq<char>)
    ensures
        split_ws(s).len() >= 1,
    decreases s.len(),
{
    if s.len() > 0 {
        lemma_split_ws_nonempty(s.drop_last());
    }
}

pub open spec fn ends_with(t: Seq<char>, e: Seq<char>) -> bool {
    t.len() >= e.len() && t.subrange(t.len() - e.len(), t.len() as int) == e
}

/// A file name with one of the extractor's media extensions.
pub open spec fn media_name(t: Seq<char>) -> bool {
    ends_with(t, ".mp4"@) || ends_with(t, ".webm"@) || ends_with(t, ".mkv"@) || ends_with(t, ".m4a"@)
}

pub open spec fn first_media(ts: Seq<Seq<char>>) -> Option<Seq<char>>
    decreases ts.len(),
{
    if ts.len() == 0 {
        None
    } else if media_name(ts[0]) {
        Some(ts[0])
    } else {
        first_media(ts.drop_first())
    }
}

/// The file a "has already been downloaded" line names: its first word
/// with a media extension.
pub open spec fn already_downloaded_spec(line: Seq<char>) -> Option<Seq<char>> {
    if exists|i: int| #[trigger] occurs_at(line, "has already been downloaded"@, i) {
        first_media(split_ws(line))
    } else {
        None
    }
}

fn words(s: &str) -> (r: Vec<String>)
    ensures
        r@.len() == split_ws(s@).len(),
        forall|i: int| 0 <= i < r@.len() ==> (#[trigger] r@[i])@ == split_ws(s@)[i],
{
    let n = s.unicode_len();
    let mut out: Vec<String> = Vec::new();
    let mut current = String::new();
    let mut i: usize = 0;
    while i < n
        invariant
            n == s@.len(),
            i <= n,
            out@.len() + 1 == split_ws(s@.subrange(0, i as int)).len(),
            forall|j: int| 0 <= j < out@.len() ==> (#[trigger] out@[j])@ == split_ws(s@.subrange(0, i as int))[j],
            current@ == split_ws(s@.subrange(0, i as int)).last(),
        decreases n - i,
    {
        let c = s.get_char(i);
        let ghost before = split_ws(s@.subrange(0, i as int));
        proof {
            let next = s@.subrange(0, i + 1);
            assert(next.drop_last() =~= s@.subrange(0, i as int));
            assert(next.last() == c);
            lemma_split_ws_nonempty(s@.subrange(0, i as int));
        }
        if white_space(c) {
            out.push(current);
            current = String::new();
        } else {
            let piece = s.substring_char(i, i + 1);
            proof {
                assert(piece@ =~= seq![c]);
            }
            current.append(piece);
            proof {
                assert(current@ =~= before.last().push(c));
            }
        }
        i = i + 1;
    }
    out.push(current);
    proof {
        assert(s@.subrange(0, n as int) =~= s@);
        lemma_split_ws_nonempty(s@);
    }
    out
}

fn ends_with_exec(t: &str, e: &str) -> (r: bool)
    ensures
        r == ends_with(t@, e@),
{
    let n = t.unicode_len();
    let m = e.unicode_len();
    if m > n {
        return false;
    }
    let tail = String::from_str(t.substring_char(n - m, n));
    let want = String::from_str(e);
    tail == want
}

fn media_name_exec(t: &str) -> (r: bool)
    ensures
        r == media_name(t@),
{
    ends_with_exec(t, ".mp4") || ends_with_exec(t, ".webm") || ends_with_exec(t, ".mkv") || ends_with_exec(
        t,
        ".m4a",
    )
}

proof fn lemma_first_media_skip(ts: Seq<Seq<char>>, k: int)
    requires
        0 <= k <= ts.len(),
        forall|j: int| 0 <= j < k ==> !media_name(#[trigger] ts[j]),
    ensures
        first_media(ts) == first_media(ts.subrange(k, ts.len() as int)),
    decreases k,
{
    if k > 0 {
        lemma_first_media_skip(ts.drop_first(), k - 1);
        assert(ts.drop_first().subrange(k - 1, ts.len() - 1) =~= ts.subrange(k, ts.len() as int));
        assert(!media_name(ts[0]));
    } else {
        assert(ts.subrange(0, ts.len() as int) =~= ts);
    }
}

pub fn already_downloaded_file(line: &str) -> (r: Option<String>)
    ensures
        match already_downloaded_spec(line@) {
            Some(f) => r is Some && r->0@ == f,
            None => r is None,
        },
{
    let marker = find_from(line, "has already been downloaded", 0);
    if marker.is_none() {
        return None;
    }
    proof {
        assert(occurs_at(line@, "has already been downloaded"@, marker->0 as int));
    }
    let ws = words(line);
    let ghost ts = split_ws(line@);
    let mut k: usize = 0;
    while k < ws.len()
        invariant
            k <= ws.len(),
            ws@.len() == ts.len(),
            forall|i: int| 0 <= i < ws@.len() ==> (#[trigger] ws@[i])@ == ts[i],
            forall|j: int| 0 <= j < k ==> !media_name(#[trigger] ts[j]),
            ts == split_ws(line@),
            exists|i: int| #[trigger] occurs_at(line@, "has already been downloaded"@, i),
        decreases ws.len() - k,
    {
        if media_name_exec(ws[k].as_str()) {
            proof {
                lemma_first_media_skip(ts, k as int);
                let rest = ts.subrange(k as int, ts.len() as int);
                assert(rest[0] == ts[k as int]);
                assert(first_media(rest) == Some(ts[k as int]));
            }
            return Some(ws[k].clone());
        }
        k = k + 1;
    }
    proof {
        lemma_first_media_skip(ts, k as int);
        assert(ts.subrange(k as int, ts.len() as int).len() == 0);
    }
    None
}

} // verus!
