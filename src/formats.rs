//! Choosing the formats to offer for a video: per resolution (with or
//! without audio) the largest one, highest resolution first. The formats
//! are seen through the fields the choice reads.

use vstd::prelude::*;
use vstd::string::*;

use crate::video::{extract_height, height_of};

verus! {

/// What the choice reads of one format.
pub struct FormatKey {
    pub resolution: Option<String>,
    pub vcodec: Option<String>,
    pub acodec: Option<String>,
    pub filesize: Option<u64>,
    pub filesize_approx: Option<u64>,
}

pub open spec fn opt_seq(o: Option<String>) -> Option<Seq<char>> {
    match o {
        Some(s) => Some(s@),
        None => None,
    }
}

/// A codec field names a stream unless it is absent or `none`.
pub open spec fn has_stream(codec: Option<String>) -> bool {
    match codec {
        Some(c) => c@ != "none"@,
        None => false,
    }
}

/// The group a format falls in: its resolution when it has video and audio,
/// `"<resolution> (video only)"`, or `"audio only"`; none without a
/// resolution or without any stream.
pub open spec fn group_of(f: FormatKey) -> Option<Seq<char>> {
    match f.resolution {
        None => None,
        Some(r) => if has_stream(f.vcodec) && has_stream(f.acodec) {
            Some(r@)
        } else if has_stream(f.vcodec) {
            Some(r@ + " (video only)"@)
        } else if has_stream(f.acodec) {
            Some("audio only"@)
        } else {
            None
        },
    }
}

/// The size a format is compared by: exact, else approximate, else 0.
pub open spec fn size_of(f: FormatKey) -> u64 {
    match f.filesize {
        Some(s) => s,
        None => match f.filesize_approx {
            Some(s) => s,
            None => 0,
        },
    }
}

pub open spec fn height_key(f: FormatKey) -> u32 {
    height_of(opt_seq(f.resolution))
}

/// Format `b` is the one kept for its group among the first `i` formats:
/// none of them in the group is larger, and none before it as large.
pub open spec fn keeps(fs: Seq<FormatKey>, b: int, i: int) -> bool {
    forall|j: int|
        0 <= j < i && #[trigger] group_of(fs[j]) == group_of(fs[b]) ==> size_of(fs[j]) <= size_of(fs[b]) && (
        j < b ==> size_of(fs[j]) < size_of(fs[b]))
}

pub open spec fn listed(keys: Seq<String>, k: Seq<char>) -> bool {
    exists|g: int| 0 <= g < keys.len() && (#[trigger] keys[g])@ == k
}

fn has_stream_exec(codec: &Option<String>) -> (r: bool)
    ensures
        r == has_stream(*codec),
{
    match codec {
        Some(c) => {
            let none = String::from_str("none");
            !(*c == none)
        },
        None => false,
    }
}

fn group_key(f: &FormatKey) -> (r: Option<String>)
    ensures
        opt_seq(r) == group_of(*f),
{
    let v = has_stream_exec(&f.vcodec);
    let a = has_stream_exec(&f.acodec);
    match &f.resolution {
        None => None,
        Some(res) => {
            if v && a {
                Some(res.clone())
            } else if v {
                Some(res.clone().concat(" (video only)"))
            } else if a {
                Some(String::from_str("audio only"))
            } else {
                None
            }
        },
    }
}

fn size_exec(f: &FormatKey) -> (r: u64)
    ensures
        r == size_of(*f),
{
    match f.filesize {
        Some(s) => s,
        None => match f.filesize_approx {
            Some(s) => s,
            None => 0,
        },
    }
}

/// One format per group, the largest (the first among equals).
fn group_best(formats: &Vec<FormatKey>) -> (best: Vec<usize>)
    ensures
        forall|a: int| 0 <= a < best.len() ==> #[trigger] best@[a] < formats.len(),
        forall|a: int| 0 <= a < best.len() ==> group_of(formats@[#[trigger] best@[a] as int]) is Some,
        forall|a: int, b: int|
            0 <= a < best.len() && 0 <= b < best.len() && a != b ==> group_of(formats@[#[trigger] best@[a] as int])
                != group_of(formats@[#[trigger] best@[b] as int]),
        forall|j: int|
            0 <= j < formats.len() && group_of(#[trigger] formats@[j]) is Some ==> exists|a: int|
                0 <= a < best.len() && group_of(formats@[best@[a] as int]) == group_of(formats@[j]),
        forall|a: int| 0 <= a < best.len() ==> keeps(formats@, #[trigger] best@[a] as int, formats.len() as int),
{
    let ghost fs = formats@;
    let mut keys: Vec<String> = Vec::new();
    let mut best: Vec<usize> = Vec::new();
    let mut i: usize = 0;
    while i < formats.len()
        invariant
            fs == formats@,
            i <= formats.len(),
            keys.len() == best.len(),
            forall|g: int| 0 <= g < best.len() ==> #[trigger] best@[g] < i,
            forall|g: int| 0 <= g < best.len() ==> group_of(fs[#[trigger] best@[g] as int]) == Some(keys@[g]@),
            forall|g: int, h: int| 0 <= g < keys.len() && 0 <= h < keys.len() && g != h ==> (#[trigger] keys@[g])@ != (#[trigger] keys@[h])@,
            forall|j: int| 0 <= j < i && group_of(#[trigger] fs[j]) is Some ==> listed(keys@, group_of(fs[j])->0),
            forall|g: int| 0 <= g < best.len() ==> keeps(fs, #[trigger] best@[g] as int, i as int),
        decreases formats.len() - i,
    {
        let k = group_key(&formats[i]);
        match k {
            None => {
                proof {
                    assert forall|g: int| 0 <= g < best.len() implies keeps(fs, #[trigger] best@[g] as int, i + 1) by {
                        assert(keeps(fs, best@[g] as int, i as int));
                    }
                }
            },
            Some(key) => {
                let size = size_exec(&formats[i]);
                let mut g: usize = 0;
                while g < keys.len() && !(keys[g] == key)
                    invariant
                        g <= keys.len(),
                        forall|h: int| 0 <= h < g ==> keys@[h]@ != key@,
                    decreases keys.len() - g,
                {
                    g = g + 1;
                }
                if g < keys.len() {
                    let cur = best[g];
                    let ghost old_best = best@;
                    proof {
                        assert(keys@[g as int]@ == key@);
                        assert(group_of(fs[cur as int]) == group_of(fs[i as int]));
                    }
                    if size > size_exec(&formats[cur]) {
                        best.remove(g);
                        best.insert(g, i);
                        proof {
                            assert(best@ =~= old_best.update(g as int, i));
                            assert forall|h: int| 0 <= h < best.len() implies keeps(fs, #[trigger] best@[h] as int, i + 1) by {
                                if h == g {
                                    assert forall|j: int| 0 <= j < i + 1 && #[trigger] group_of(fs[j]) == group_of(fs[i as int]) implies size_of(fs[j]) <= size_of(fs[i as int]) && (j < i ==> size_of(fs[j]) < size_of(fs[i as int])) by {
                                        if j < i {
                                            assert(keeps(fs, cur as int, i as int));
                                        }
                                    }
                                } else {
                                    assert(best@[h] == old_best[h]);
                                    assert(keeps(fs, old_best[h] as int, i as int));
                                    assert(group_of(fs[old_best[h] as int]) != group_of(fs[i as int]));
                                }
                            }
                        }
                    } else {
                        proof {
                            assert forall|h: int| 0 <= h < best.len() implies keeps(fs, #[trigger] best@[h] as int, i + 1) by {
                                assert(keeps(fs, best@[h] as int, i as int));
                                if h != g {
                                    assert(group_of(fs[best@[h] as int]) != group_of(fs[i as int]));
                                }
                            }
                        }
                    }
                    proof {
                        assert forall|j: int| 0 <= j < i + 1 && group_of(#[trigger] fs[j]) is Some implies listed(keys@, group_of(fs[j])->0) by {
                            if j == i {
                                assert(keys@[g as int]@ == group_of(fs[j])->0);
                            }
                        }
                    }
                } else {
                    let ghost old_keys = keys@;
                    let ghost old_best = best@;
                    keys.push(key);
                    best.push(i);
                    proof {
                        assert forall|h: int| 0 <= h < best.len() implies keeps(fs, #[trigger] best@[h] as int, i + 1) by {
                            if h < old_best.len() {
                                assert(best@[h] == old_best[h]);
                                assert(keeps(fs, old_best[h] as int, i as int));
                                assert(old_keys[h]@ != key@);
                            } else {
                                assert forall|j: int| 0 <= j < i + 1 && #[trigger] group_of(fs[j]) == group_of(fs[i as int]) implies size_of(fs[j]) <= size_of(fs[i as int]) && (j < i ==> size_of(fs[j]) < size_of(fs[i as int])) by {
                                    if j < i {
                                        assert(listed(old_keys, group_of(fs[j])->0));
                                        let g2 = choose|g2: int| 0 <= g2 < old_keys.len() && (#[trigger] old_keys[g2])@ == group_of(fs[j])->0;
                                        assert(old_keys[g2]@ == key@);
                                    }
                                }
                            }
                        }
                        assert forall|j: int| 0 <= j < i + 1 && group_of(#[trigger] fs[j]) is Some implies listed(keys@, group_of(fs[j])->0) by {
                            if j == i {
                                assert(keys@[old_keys.len() as int]@ == group_of(fs[j])->0);
                            } else {
                                assert(listed(old_keys, group_of(fs[j])->0));
                                let g2 = choose|g2: int| 0 <= g2 < old_keys.len() && (#[trigger] old_keys[g2])@ == group_of(fs[j])->0;
                                assert(keys@[g2] == old_keys[g2]);
                            }
                        }
                        assert forall|g: int| 0 <= g < best.len() implies group_of(fs[#[trigger] best@[g] as int]) == Some(keys@[g]@) by {
                            if g < old_best.len() {
                                assert(best@[g] == old_best[g]);
                                assert(keys@[g] == old_keys[g]);
                            }
                        }
                    }
                }
            },
        }
        i = i + 1;
    }
    proof {
        assert forall|j: int| 0 <= j < formats.len() && group_of(#[trigger] formats@[j]) is Some implies exists|a: int|
            0 <= a < best.len() && group_of(formats@[best@[a] as int]) == group_of(formats@[j]) by {
            assert(listed(keys@, group_of(fs[j])->0));
            let g = choose|g: int| 0 <= g < keys.len() && (#[trigger] keys@[g])@ == group_of(fs[j])->0;
            assert(group_of(fs[best@[g] as int]) == group_of(fs[j]));
        }
    }
    best
}

spec fn covered(perm: Seq<int>, g: int) -> bool {
    exists|t: int| 0 <= t < perm.len() && #[trigger] perm[t] == g
}

/// The formats to offer, as indices into `formats`: one per group, the
/// largest of the group (the first among equals), highest resolution first.
pub fn select_formats(formats: &Vec<FormatKey>) -> (r: Vec<usize>)
    ensures
        forall|a: int| 0 <= a < r.len() ==> #[trigger] r@[a] < formats.len(),
        forall|a: int| 0 <= a < r.len() ==> group_of(formats@[#[trigger] r@[a] as int]) is Some,
        forall|a: int, b: int|
            0 <= a < r.len() && 0 <= b < r.len() && a != b ==> group_of(formats@[#[trigger] r@[a] as int])
                != group_of(formats@[#[trigger] r@[b] as int]),
        forall|j: int|
            0 <= j < formats.len() && group_of(#[trigger] formats@[j]) is Some ==> exists|a: int|
                0 <= a < r.len() && group_of(formats@[r@[a] as int]) == group_of(formats@[j]),
        forall|a: int| 0 <= a < r.len() ==> keeps(formats@, #[trigger] r@[a] as int, formats.len() as int),
        forall|a: int, b: int|
            0 <= a < b < r.len() ==> height_key(formats@[r@[a] as int]) >= height_key(formats@[r@[b] as int]),
{
    let best = group_best(formats);
    let n = best.len();
    let mut r: Vec<usize> = Vec::new();
    let mut hs: Vec<u32> = Vec::new();
    let ghost mut perm: Seq<int> = Seq::empty();
    let mut i: usize = 0;
    while i < n
        invariant
            n == best.len(),
            i <= n,
            r.len() == i,
            hs.len() == i,
            perm.len() == i,
            forall|a: int| 0 <= a < best.len() ==> #[trigger] best@[a] < formats.len(),
            forall|t: int| 0 <= t < i ==> 0 <= #[trigger] perm[t] < i,
            forall|t: int| 0 <= t < i ==> r@[t] == best@[#[trigger] perm[t]],
            forall|t: int| 0 <= t < i ==> #[trigger] hs@[t] == height_key(formats@[r@[t] as int]),
            forall|t1: int, t2: int| 0 <= t1 < i && 0 <= t2 < i && t1 != t2 ==> #[trigger] perm[t1] != #[trigger] perm[t2],
            forall|g: int| 0 <= g < i ==> #[trigger] covered(perm, g),
            forall|a: int, b: int| 0 <= a < b < i ==> hs@[a] >= hs@[b],
        decreases n - i,
    {
        let idx = best[i];
        let h = extract_height(&formats[idx].resolution);
        let mut p: usize = 0;
        while p < hs.len() && hs[p] >= h
            invariant
                p <= hs.len(),
                forall|a: int| 0 <= a < p ==> hs@[a] >= h,
            decreases hs.len() - p,
        {
            p = p + 1;
        }
        let ghost old_r = r@;
        let ghost old_hs = hs@;
        let ghost old_perm = perm;
        r.insert(p, idx);
        hs.insert(p, h);
        proof {
            perm = perm.insert(p as int, i as int);
            assert forall|t: int| 0 <= t < i + 1 implies r@[t] == best@[#[trigger] perm[t]] by {
                if t < p {
                    assert(r@[t] == old_r[t] && perm[t] == old_perm[t]);
                } else if t > p {
                    assert(r@[t] == old_r[t - 1] && perm[t] == old_perm[t - 1]);
                }
            }
            assert forall|t: int| 0 <= t < i + 1 implies #[trigger] hs@[t] == height_key(formats@[r@[t] as int]) by {
                if t < p {
                    assert(hs@[t] == old_hs[t] && r@[t] == old_r[t]);
                } else if t > p {
                    assert(hs@[t] == old_hs[t - 1] && r@[t] == old_r[t - 1]);
                }
            }
            assert forall|t1: int, t2: int| 0 <= t1 < i + 1 && 0 <= t2 < i + 1 && t1 != t2 implies #[trigger] perm[t1] != #[trigger] perm[t2] by {
                let o1 = if t1 < p { t1 } else { t1 - 1 };
                let o2 = if t2 < p { t2 } else { t2 - 1 };
                if t1 != p && t2 != p {
                    assert(perm[t1] == old_perm[o1] && perm[t2] == old_perm[o2]);
                } else if t1 == p {
                    assert(perm[t2] == old_perm[o2]);
                } else {
                    assert(perm[t1] == old_perm[o1]);
                }
            }
            assert forall|g: int| 0 <= g < i + 1 implies #[trigger] covered(perm, g) by {
                if g < i {
                    assert(covered(old_perm, g));
                    let t = choose|t: int| 0 <= t < old_perm.len() && #[trigger] old_perm[t] == g;
                    if t < p {
                        assert(perm[t] == g);
                    } else {
                        assert(perm[t + 1] == g);
                    }
                } else {
                    assert(perm[p as int] == g);
                }
            }
            assert forall|a: int, b: int| 0 <= a < b < i + 1 implies hs@[a] >= hs@[b] by {
                if b < p {
                    assert(hs@[a] == old_hs[a] && hs@[b] == old_hs[b]);
                } else if b == p {
                    assert(hs@[a] == old_hs[a]);
                } else if a == p {
                    assert(hs@[b] == old_hs[b - 1]);
                    if p < old_hs.len() {
                        assert(old_hs[p as int] < h);
                    }
                } else if a < p {
                    assert(hs@[a] == old_hs[a] && hs@[b] == old_hs[b - 1]);
                } else {
                    assert(hs@[a] == old_hs[a - 1] && hs@[b] == old_hs[b - 1]);
                }
            }
        }
        i = i + 1;
    }
    proof {
        assert forall|a: int| 0 <= a < r.len() implies #[trigger] r@[a] < formats.len() by {
            assert(r@[a] == best@[perm[a]]);
        }
        assert forall|a: int| 0 <= a < r.len() implies group_of(formats@[#[trigger] r@[a] as int]) is Some by {
            assert(r@[a] == best@[perm[a]]);
        }
        assert forall|a: int| 0 <= a < r.len() implies keeps(formats@, #[trigger] r@[a] as int, formats.len() as int) by {
            assert(r@[a] == best@[perm[a]]);
        }
        assert forall|a: int, b: int|
            0 <= a < r.len() && 0 <= b < r.len() && a != b implies group_of(formats@[#[trigger] r@[a] as int])
                != group_of(formats@[#[trigger] r@[b] as int]) by {
            assert(r@[a] == best@[perm[a]] && r@[b] == best@[perm[b]]);
            assert(perm[a] != perm[b]);
        }
        assert forall|j: int| 0 <= j < formats.len() && group_of(#[trigger] formats@[j]) is Some implies exists|a: int|
            0 <= a < r.len() && group_of(formats@[r@[a] as int]) == group_of(formats@[j]) by {
            let g = choose|g: int| 0 <= g < best.len() && group_of(formats@[best@[g] as int]) == group_of(formats@[j]);
            assert(covered(perm, g));
            let t = choose|t: int| 0 <= t < perm.len() && #[trigger] perm[t] == g;
            assert(r@[t] == best@[g]);
        }
        assert forall|a: int, b: int| 0 <= a < b < r.len() implies height_key(formats@[r@[a] as int]) >= height_key(formats@[r@[b] as int]) by {
            assert(hs@[a] >= hs@[b]);
        }
    }
    r
}

} // verus!
