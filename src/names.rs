//! File names: the name a URL suggests, and a free name in a folder.

use vstd::prelude::*;
use vstd::string::*;

use crate::text::{dec, digit_char, digit_value, digits_value};

verus! {

/// What precedes the first `c` in `s` (all of `s` when there is none).
pub open spec fn before_first(s: Seq<char>, c: char) -> Seq<char>
    decreases s.len(),
{
    if s.len() == 0 {
        s
    } else if s[0] == c {
        Seq::empty()
    } else {
        seq![s[0]] + before_first(s.drop_first(), c)
    }
}

/// What follows the last `c` in `s` (all of `s` when there is none).
pub open spec fn after_last(s: Seq<char>, c: char) -> Seq<char>
    decreases s.len(),
{
    if s.len() == 0 {
        s
    } else if s.last() == c {
        Seq::empty()
    } else {
        after_last(s.drop_last(), c).push(s.last())
    }
}

/// What precedes the last `c` in `s`; meaningful when `s` holds a `c`.
pub open spec fn before_last(s: Seq<char>, c: char) -> Seq<char>
    decreases s.len(),
{
    if s.len() == 0 {
        s
    } else if s.last() == c {
        s.drop_last()
    } else {
        before_last(s.drop_last(), c)
    }
}

/// The file name a URL ends in: the last path component with the query
/// removed, when it is non-empty and holds a dot.
pub open spec fn url_filename(url: Seq<char>) -> Option<Seq<char>> {
    let last = after_last(before_first(url, '?'), '/');
    if last.len() > 0 && last.contains('.') {
        Some(last)
    } else {
        None
    }
}

/// The part of a file name before its final dot (all of it without a dot).
pub open spec fn stem_of(name: Seq<char>) -> Seq<char> {
    if name.contains('.') {
        before_last(name, '.')
    } else {
        name
    }
}

/// The part of a file name after its final dot (empty without a dot).
pub open spec fn ext_of(name: Seq<char>) -> Seq<char> {
    if name.contains('.') {
        after_last(name, '.')
    } else {
        Seq::empty()
    }
}

/// The `k`-th alternative to `name`: `"<stem> (<k>).<ext>"`, or
/// `"<stem> (<k>)"` when the extension is empty.
pub open spec fn candidate(name: Seq<char>, k: nat) -> Seq<char> {
    stem_of(name) + seq![' ', '('] + dec(k) + seq![')'] + if ext_of(name).len() > 0 {
        seq!['.'] + ext_of(name)
    } else {
        Seq::<char>::empty()
    }
}

/// The names in a folder listing.
pub open spec fn names_of(existing: Seq<String>) -> Seq<Seq<char>> {
    existing.map_values(|s: String| s@)
}

pub open spec fn is_taken(existing: Seq<String>, name: Seq<char>) -> bool {
    names_of(existing).contains(name)
}

proof fn lemma_before_first(s: Seq<char>, c: char, i: int)
    requires
        0 <= i <= s.len(),
        forall|j: int| 0 <= j < i ==> s[j] != c,
        i < s.len() ==> s[i] == c,
    ensures
        before_first(s, c) == s.subrange(0, i),
    decreases s.len(),
{
    if s.len() > 0 && i > 0 {
        lemma_before_first(s.drop_first(), c, i - 1);
        assert(before_first(s, c) =~= s.subrange(0, i));
    } else if s.len() > 0 {
        assert(before_first(s, c) =~= s.subrange(0, i));
    } else {
        assert(s =~= s.subrange(0, i));
    }
}

pub proof fn lemma_after_last_at(s: Seq<char>, c: char, r: int)
    requires
        0 <= r <= s.len(),
        forall|j: int| r <= j < s.len() ==> s[j] != c,
        r > 0 ==> s[r - 1] == c,
    ensures
        after_last(s, c) == s.subrange(r, s.len() as int),
    decreases s.len(),
{
    if s.len() == r {
        assert(s.subrange(r, s.len() as int) =~= Seq::<char>::empty());
        if r == 0 {
            assert(s =~= Seq::<char>::empty());
        }
    } else {
        lemma_after_last_at(s.drop_last(), c, r);
        assert(after_last(s, c) =~= s.subrange(r, s.len() as int));
    }
}

proof fn lemma_before_last(s: Seq<char>, c: char, r: int)
    requires
        0 < r <= s.len(),
        forall|j: int| r <= j < s.len() ==> s[j] != c,
        s[r - 1] == c,
    ensures
        before_last(s, c) == s.subrange(0, r - 1),
    decreases s.len(),
{
    if s.len() == r {
        assert(s.drop_last() =~= s.subrange(0, r - 1));
    } else {
        lemma_before_last(s.drop_last(), c, r);
        assert(s.drop_last().subrange(0, r - 1) =~= s.subrange(0, r - 1));
    }
}

/// Index of the first `c` in `s`, or its length.
fn index_of_first(s: &str, c: char) -> (r: usize)
    ensures
        r <= s@.len(),
        forall|j: int| 0 <= j < r ==> s@[j] != c,
        r < s@.len() ==> s@[r as int] == c,
{
    let n = s.unicode_len();
    let mut i: usize = 0;
    while i < n
        invariant
            n == s@.len(),
            i <= n,
            forall|j: int| 0 <= j < i ==> s@[j] != c,
        decreases n - i,
    {
        if s.get_char(i) == c {
            return i;
        }
        i = i + 1;
    }
    i
}

/// One past the index of the last `c` in `s`, or zero when there is none.
fn index_after_last(s: &str, c: char) -> (r: usize)
    ensures
        r <= s@.len(),
        forall|j: int| r <= j < s@.len() ==> s@[j] != c,
        r > 0 ==> s@[r - 1] == c,
{
    let n = s.unicode_len();
    let mut i: usize = n;
    while i > 0
        invariant
            n == s@.len(),
            i <= n,
            forall|j: int| i <= j < n ==> s@[j] != c,
        decreases i,
    {
        if s.get_char(i - 1) == c {
            return i;
        }
        i = i - 1;
    }
    0
}

/// The file name at the end of `url`, if it has one with an extension.
pub fn extract_filename_from_url(url: &str) -> (r: Option<String>)
    ensures
        match url_filename(url@) {
            Some(f) => r is Some && r->0@ == f,
            None => r is None,
        },
{
    let q = index_of_first(url, '?');
    proof {
        lemma_before_first(url@, '?', q as int);
    }
    let path = url.substring_char(0, q);
    let s = index_after_last(path, '/');
    proof {
        lemma_after_last_at(path@, '/', s as int);
    }
    let n = path.unicode_len();
    let last = path.substring_char(s, n);
    if n == s {
        return None;
    }
    let d = index_of_first(last, '.');
    if d == last.unicode_len() {
        proof {
            assert(!last@.contains('.'));
        }
        return None;
    }
    proof {
        assert(last@.contains('.'));
    }
    Some(String::from_str(last))
}

proof fn lemma_digit_value(d: nat)
    requires
        d < 10,
    ensures
        digit_value(digit_char(d)) == d,
{
    let cs = seq!['0', '1', '2', '3', '4', '5', '6', '7', '8', '9'];
    assert(cs[0] == '0' && cs[1] == '1' && cs[2] == '2' && cs[3] == '3' && cs[4] == '4');
    assert(cs[5] == '5' && cs[6] == '6' && cs[7] == '7' && cs[8] == '8' && cs[9] == '9');
}

/// Reading back a decimal rendering gives the number.
pub proof fn lemma_dec_value(n: nat)
    ensures
        digits_value(dec(n)) == n,
    decreases n,
{
    if n < 10 {
        lemma_digit_value(n);
        assert(dec(n).drop_last() =~= Seq::<char>::empty());
        assert(digits_value(Seq::<char>::empty()) == 0);
        assert(dec(n).last() == digit_char(n));
    } else {
        lemma_dec_value(n / 10);
        lemma_digit_value(n % 10);
        assert(dec(n).drop_last() =~= dec(n / 10));
        assert(dec(n).last() == digit_char(n % 10));
        assert(digits_value(dec(n)) == digits_value(dec(n / 10)) * 10 + digit_value(digit_char(n % 10)));
        assert((n / 10) * 10 + n % 10 == n);
    }
}

/// Distinct numbers give distinct alternative names.
pub proof fn lemma_candidate_injective(name: Seq<char>, k1: nat, k2: nat)
    requires
        candidate(name, k1) == candidate(name, k2),
    ensures
        k1 == k2,
{
    let p = stem_of(name) + seq![' ', '('];
    let t = seq![')'] + if ext_of(name).len() > 0 {
        seq!['.'] + ext_of(name)
    } else {
        Seq::<char>::empty()
    };
    assert(candidate(name, k1) =~= p + dec(k1) + t);
    assert(candidate(name, k2) =~= p + dec(k2) + t);
    let c = candidate(name, k1);
    assert(dec(k1).len() == dec(k2).len());
    assert(c.subrange(p.len() as int, p.len() + dec(k1).len() as int) =~= dec(k1));
    assert(c.subrange(p.len() as int, p.len() + dec(k2).len() as int) =~= dec(k2));
    lemma_dec_value(k1);
    lemma_dec_value(k2);
}

/// The alternatives numbered `1` to `k - 1`.
spec fn candidates_below(name: Seq<char>, k: nat) -> Set<Seq<char>>
    decreases k,
{
    if k <= 1 {
        Set::empty()
    } else {
        candidates_below(name, (k - 1) as nat).insert(candidate(name, (k - 1) as nat))
    }
}

proof fn lemma_candidates_below(name: Seq<char>, k: nat)
    requires
        k >= 1,
    ensures
        candidates_below(name, k).finite(),
        candidates_below(name, k).len() == k - 1,
        forall|x: Seq<char>|
            #[trigger] candidates_below(name, k).contains(x) ==> exists|j: nat| 1 <= j < k && x == candidate(name, j),
    decreases k,
{
    if k > 1 {
        let k1 = (k - 1) as nat;
        lemma_candidates_below(name, k1);
        assert(!candidates_below(name, k1).contains(candidate(name, k1))) by {
            if candidates_below(name, k1).contains(candidate(name, k1)) {
                let j = choose|j: nat| 1 <= j < k1 && candidate(name, k1) == candidate(name, j);
                lemma_candidate_injective(name, k1, j);
            }
        }
    }
}

fn contains_name(existing: &Vec<String>, name: &String) -> (r: bool)
    ensures
        r == is_taken(existing@, name@),
{
    let mut i: usize = 0;
    while i < existing.len()
        invariant
            i <= existing.len(),
            forall|j: int| 0 <= j < i ==> existing@[j]@ != name@,
        decreases existing.len() - i,
    {
        if existing[i] == *name {
            proof {
                assert(names_of(existing@)[i as int] == name@);
            }
            return true;
        }
        i = i + 1;
    }
    proof {
        if names_of(existing@).contains(name@) {
            let j = choose|j: int| 0 <= j < names_of(existing@).len() && names_of(existing@)[j] == name@;
            assert(existing@[j]@ == name@);
        }
    }
    false
}

/// Builds the `k`-th alternative to a name with the given stem and extension.
fn candidate_name(stem: &str, ext: &str, k: u64) -> (r: String)
    ensures
        r@ == stem@ + seq![' ', '('] + dec(k as nat) + seq![')'] + if ext@.len() > 0 {
            seq!['.'] + ext@
        } else {
            Seq::<char>::empty()
        },
{
    proof {
        reveal_strlit(" (");
        reveal_strlit(")");
        reveal_strlit(".");
    }
    let number = decimal_of(k);
    let r = String::from_str(stem).concat(" (").concat(number.as_str()).concat(")");
    if ext.unicode_len() > 0 {
        let r2 = r.concat(".").concat(ext);
        proof {
            assert(r2@ =~= stem@ + seq![' ', '('] + dec(k as nat) + seq![')'] + (seq!['.'] + ext@));
        }
        r2
    } else {
        proof {
            assert(r@ =~= stem@ + seq![' ', '('] + dec(k as nat) + seq![')'] + Seq::<char>::empty());
        }
        r
    }
}

fn decimal_of(k: u64) -> (r: String)
    ensures
        r@ == dec(k as nat),
{
    crate::text::decimal(k)
}

/// Splits a file name at its final dot into stem and extension.
fn split_name(name: &str) -> (r: (String, String))
    ensures
        r.0@ == stem_of(name@),
        r.1@ == ext_of(name@),
{
    let d = index_after_last(name, '.');
    let n = name.unicode_len();
    if d == 0 {
        proof {
            assert(!name@.contains('.'));
        }
        (String::from_str(name), String::new())
    } else {
        proof {
            assert(name@.contains('.'));
            lemma_before_last(name@, '.', d as int);
            lemma_after_last_at(name@, '.', d as int);
        }
        (String::from_str(name.substring_char(0, d - 1)), String::from_str(name.substring_char(d, n)))
    }
}

/// The first of `"<stem> (1).<ext>"`, `"<stem> (2).<ext>"`, ... that is not
/// among `existing`.
fn first_free_candidate(existing: &Vec<String>, filename: &str) -> (r: String)
    requires
        existing.len() < u64::MAX,
    ensures
        exists|k: nat|
            k >= 1 && #[trigger] candidate(filename@, k) == r@ && !is_taken(existing@, r@) && forall|j: nat|
                1 <= j < k ==> is_taken(existing@, #[trigger] candidate(filename@, j)),
{
    let (stem, ext) = split_name(filename);
    let ghost names = names_of(existing@).to_set();
    proof {
        names_of(existing@).lemma_cardinality_of_set();
        vstd::seq_lib::seq_to_set_is_finite(names_of(existing@));
    }
    let mut k: u64 = 1;
    loop
        invariant
            1 <= k <= existing.len() + 1,
            existing.len() < u64::MAX,
            stem@ == stem_of(filename@),
            ext@ == ext_of(filename@),
            names == names_of(existing@).to_set(),
            names.finite(),
            names.len() <= existing.len(),
            forall|j: nat| 1 <= j < k ==> is_taken(existing@, #[trigger] candidate(filename@, j)),
        decreases existing.len() + 1 - k,
    {
        let name = candidate_name(stem.as_str(), ext.as_str(), k);
        proof {
            assert(name@ == candidate(filename@, k as nat));
        }
        if !contains_name(existing, &name) {
            return name;
        }
        proof {
            let kk = (k + 1) as nat;
            lemma_candidates_below(filename@, kk);
            assert forall|x: Seq<char>| #[trigger] candidates_below(filename@, kk).contains(x) implies names.contains(x) by {
                let j = choose|j: nat| 1 <= j < kk && x == candidate(filename@, j);
                assert(is_taken(existing@, candidate(filename@, j)));
            }
            vstd::set_lib::lemma_len_subset(candidates_below(filename@, kk), names);
            assert(k <= existing.len());
        }
        k = k + 1;
    }
}

/// A name that is free in a folder holding `existing`: `filename` itself
/// when it is free, otherwise the first of `"<stem> (1).<ext>"`,
/// `"<stem> (2).<ext>"`, ... that is.
pub fn generate_unique_filename(existing: &Vec<String>, filename: &str) -> (r: String)
    requires
        existing.len() < u64::MAX,
    ensures
        !is_taken(existing@, filename@) ==> r@ == filename@,
        is_taken(existing@, filename@) ==> exists|k: nat|
            k >= 1 && #[trigger] candidate(filename@, k) == r@ && !is_taken(existing@, r@) && forall|j: nat|
                1 <= j < k ==> is_taken(existing@, #[trigger] candidate(filename@, j)),
{
    let name = String::from_str(filename);
    if contains_name(existing, &name) {
        first_free_candidate(existing, filename)
    } else {
        name
    }
}

/// Whether `filename` is taken in a folder holding `existing`, and the name
/// to use.
pub struct FileExistsInfo {
    pub exists: bool,
    pub suggested_name: String,
}

/// A name is kept when it is free; otherwise the lowest-numbered free
/// alternative is suggested.
pub fn check_file_exists(existing: &Vec<String>, filename: &str) -> (r: FileExistsInfo)
    requires
        existing.len() < u64::MAX,
    ensures
        r.exists == is_taken(existing@, filename@),
        !r.exists ==> r.suggested_name@ == filename@,
        r.exists ==> exists|k: nat|
            k >= 1 && #[trigger] candidate(filename@, k) == r.suggested_name@ && !is_taken(
                existing@,
                r.suggested_name@,
            ) && forall|j: nat| 1 <= j < k ==> is_taken(existing@, #[trigger] candidate(filename@, j)),
{
    let name = String::from_str(filename);
    let exists = contains_name(existing, &name);
    FileExistsInfo { exists, suggested_name: generate_unique_filename(existing, filename) }
}

} // verus!
