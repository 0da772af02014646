//! Helpers for driving the external video extractor: which URLs it takes,
//! the arguments it is run with, and reading its progress lines.

use vstd::prelude::*;
use vstd::string::*;

use crate::names::after_last;
use crate::settings::{data_folder, data_folder_of, join, join_path};
use crate::sys::{os_data_dir, regex_is_match, regex_match};
use crate::text::{dec, dec_signed, decimal, decimal_signed, parse_u64, parse_unsigned};

verus! {

/// URL patterns of the video sites the extractor handles.
pub open spec fn video_patterns() -> Seq<Seq<char>> {
    seq![
        "youtube\\.com/watch"@,
        "youtube\\.com/shorts/"@,
        "youtu\\.be/"@,
        "twitter\\.com/.*/status/"@,
        "x\\.com/.*/status/"@,
        "tiktok\\.com/"@,
        "instagram\\.com/(p|reel|reels)/"@,
        "vimeo\\.com/"@,
        "twitch\\.tv/"@,
        "dailymotion\\.com/"@,
        "facebook\\.com/.*/videos/"@,
        "reddit\\.com/.*/comments/"@,
        "streamable\\.com/"@,
        "v\\.redd\\.it/"@,
    ]
}

fn video_pattern_list() -> (r: Vec<&'static str>)
    ensures
        r@.len() == video_patterns().len(),
        forall|i: int| 0 <= i < r@.len() ==> r@[i]@ == #[trigger] video_patterns()[i],
{
    let mut r: Vec<&'static str> = Vec::new();
    r.push("youtube\\.com/watch");
    r.push("youtube\\.com/shorts/");
    r.push("youtu\\.be/");
    r.push("twitter\\.com/.*/status/");
    r.push("x\\.com/.*/status/");
    r.push("tiktok\\.com/");
    r.push("instagram\\.com/(p|reel|reels)/");
    r.push("vimeo\\.com/");
    r.push("twitch\\.tv/");
    r.push("dailymotion\\.com/");
    r.push("facebook\\.com/.*/videos/");
    r.push("reddit\\.com/.*/comments/");
    r.push("streamable\\.com/");
    r.push("v\\.redd\\.it/");
    r
}

/// Whether any answer is a match.
pub fn any_match(answers: &Vec<Option<bool>>) -> (r: bool)
    ensures
        r == exists|i: int| 0 <= i < answers@.len() && #[trigger] answers@[i] == Some(true),
{
    let mut i: usize = 0;
    while i < answers.len()
        invariant
            i <= answers.len(),
            forall|j: int| 0 <= j < i ==> answers@[j] != Some(true),
        decreases answers.len() - i,
    {
        if let Some(true) = answers[i] {
            return true;
        }
        i = i + 1;
    }
    false
}

/// Whether `url` belongs to a video site: some pattern compiles and matches.
pub fn is_video_url(url: &str) -> (r: bool)
    ensures
        r == exists|i: int|
            0 <= i < video_patterns().len() && #[trigger] regex_match(video_patterns()[i], url@) == Some(
                true,
            ),
{
    let patterns = video_pattern_list();
    let mut answers: Vec<Option<bool>> = Vec::new();
    let mut i: usize = 0;
    while i < patterns.len()
        invariant
            i <= patterns.len(),
            patterns@.len() == video_patterns().len(),
            forall|j: int| 0 <= j < patterns@.len() ==> patterns@[j]@ == #[trigger] video_patterns()[j],
            answers@.len() == i,
            forall|j: int| 0 <= j < i ==> #[trigger] answers@[j] == regex_match(video_patterns()[j], url@),
        decreases patterns.len() - i,
    {
        answers.push(regex_is_match(patterns[i], url));
        i = i + 1;
    }
    let r = any_match(&answers);
    proof {
        if r {
            let i = choose|i: int| 0 <= i < answers@.len() && #[trigger] answers@[i] == Some(true);
            assert(regex_match(video_patterns()[i], url@) == Some(true));
        }
        if exists|i: int| 0 <= i < video_patterns().len() && #[trigger] regex_match(video_patterns()[i], url@) == Some(true) {
            let i = choose|i: int| 0 <= i < video_patterns().len() && #[trigger] regex_match(video_patterns()[i], url@) == Some(true);
            assert(answers@[i] == Some(true));
        }
    }
    r
}

/// The height in a resolution such as `1920x1080`: the number after the
/// last `x`, or 0 when there is none to read.
pub open spec fn height_of(resolution: Option<Seq<char>>) -> u32 {
    match resolution {
        Some(r) => match parse_unsigned(after_last(r, 'x'), u32::MAX as nat) {
            Some(h) => h as u32,
            None => 0,
        },
        None => 0,
    }
}

pub fn extract_height(resolution: &Option<String>) -> (r: u32)
    ensures
        r == height_of(
            match resolution {
                Some(s) => Some(s@),
                None => None,
            },
        ),
{
    match resolution {
        None => 0,
        Some(res) => {
            let s = res.as_str();
            let n = s.unicode_len();
            let mut i: usize = n;
            while i > 0 && s.get_char(i - 1) != 'x'
                invariant
                    n == s@.len(),
                    i <= n,
                    forall|j: int| i <= j < n ==> s@[j] != 'x',
                decreases i,
            {
                i = i - 1;
            }
            proof {
                crate::names::lemma_after_last_at(s@, 'x', i as int);
            }
            match parse_u64(s.substring_char(i, n)) {
                Some(v) => {
                    if v <= u32::MAX as u64 {
                        v as u32
                    } else {
                        0
                    }
                },
                None => 0,
            }
        },
    }
}

/// Splitting at every `sep`.
pub open spec fn split_on(s: Seq<char>, sep: char) -> Seq<Seq<char>>
    decreases s.len(),
{
    if s.len() == 0 {
        seq![Seq::empty()]
    } else {
        let rest = split_on(s.drop_last(), sep);
        if s.last() == sep {
            rest.push(Seq::empty())
        } else {
            rest.update(rest.len() - 1, rest.last().push(s.last()))
        }
    }
}

proof fn lemma_split_nonempty(s: Seq<char>, sep: char)
    ensures
        split_on(s, sep).len() >= 1,
    decreases s.len(),
{
    if s.len() > 0 {
        lemma_split_nonempty(s.drop_last(), sep);
    }
}

pub open spec fn progress_prefix() -> Seq<char> {
    "DLM:"@
}

/// The fields of an extractor progress line: it starts with the prefix,
/// and what follows splits at `|` into at least six fields
/// (`PCT|DOWNLOADED|TOTAL|TOTAL_EST|SPEED|ETA`).
pub open spec fn progress_fields_spec(line: Seq<char>) -> Option<Seq<Seq<char>>> {
    let p = progress_prefix();
    if line.len() >= p.len() && line.subrange(0, p.len() as int) == p {
        let fields = split_on(line.subrange(p.len() as int, line.len() as int), '|');
        if fields.len() >= 6 {
            Some(fields)
        } else {
            None
        }
    } else {
        None
    }
}

pub fn progress_fields(line: &str) -> (r: Option<Vec<String>>)
    ensures
        match progress_fields_spec(line@) {
            Some(f) => r is Some && r->0@.len() == f.len() && forall|i: int|
                0 <= i < f.len() ==> (#[trigger] r->0@[i])@ == f[i],
            None => r is None,
        },
{
    proof {
        reveal_strlit("DLM:");
    }
    let prefix = "DLM:";
    let n = line.unicode_len();
    if n < 4 {
        return None;
    }
    let head = line.substring_char(0, 4);
    let head_s = String::from_str(head);
    let prefix_s = String::from_str(prefix);
    if !(head_s == prefix_s) {
        return None;
    }
    let body = line.substring_char(4, n);
    let m = body.unicode_len();
    let mut fields: Vec<String> = Vec::new();
    let mut current = String::new();
    let mut i: usize = 0;
    while i < m
        invariant
            m == body@.len(),
            i <= m,
            fields@.len() + 1 == split_on(body@.subrange(0, i as int), '|').len(),
            forall|j: int| 0 <= j < fields@.len() ==> (#[trigger] fields@[j])@ == split_on(
                body@.subrange(0, i as int),
                '|',
            )[j],
            current@ == split_on(body@.subrange(0, i as int), '|').last(),
        decreases m - i,
    {
        let c = body.get_char(i);
        let ghost before = split_on(body@.subrange(0, i as int), '|');
        proof {
            let next = body@.subrange(0, i + 1);
            assert(next.drop_last() =~= body@.subrange(0, i as int));
            assert(next.last() == c);
            lemma_split_nonempty(body@.subrange(0, i as int), '|');
        }
        if c == '|' {
            fields.push(current);
            current = String::new();
        } else {
            let piece = body.substring_char(i, i + 1);
            proof {
                assert(piece@ =~= seq![c]);
            }
            current.append(piece);
            proof {
                assert(current@ =~= before.last().push(c));
            }
        }
        i = i + 1;
    }
    fields.push(current);
    proof {
        assert(body@.subrange(0, m as int) =~= body@);
        assert(line@.subrange(4, n as int) == body@);
        lemma_split_nonempty(body@, '|');
    }
    if fields.len() >= 6 {
        Some(fields)
    } else {
        None
    }
}

/// Whether an extractor field reports a value as unavailable.
pub fn field_absent(field: &str) -> (r: bool)
    ensures
        r == exists|i: int| 0 <= i && i + 2 <= field@.len() && #[trigger] field@[i] == 'N' && field@[i + 1] == 'A',
{
    let n = field.unicode_len();
    let mut i: usize = 0;
    while i < n && n - i > 1
        invariant
            n == field@.len(),
            i <= n,
            forall|j: int| 0 <= j < i && j + 2 <= n ==> !(#[trigger] field@[j] == 'N' && field@[j + 1] == 'A'),
        decreases n - i,
    {
        if field.get_char(i) == 'N' && field.get_char(i + 1) == 'A' {
            return true;
        }
        i = i + 1;
    }
    false
}

/// Transfers this small are taken for a manifest, not the media.
pub const SMALL_TOTAL: u64 = 50 * 1024;

/// The total size a progress line reports: the exact total when given
/// (non-zero), else the estimate; replaced by `inferred` (the size implied
/// by a non-trivial percentage of the bytes received, when there is one)
/// whenever that total is 0, under 50 KiB or below the bytes received.
pub open spec fn reported_total_spec(exact: u64, estimate: u64, downloaded: u64, inferred: Option<u64>) -> u64 {
    let total = if exact > 0 {
        exact
    } else {
        estimate
    };
    match inferred {
        Some(t) => if total == 0 || total < SMALL_TOTAL || total < downloaded {
            t
        } else {
            total
        },
        None => total,
    }
}

pub fn reported_total(exact: u64, estimate: u64, downloaded: u64, inferred: Option<u64>) -> (r: u64)
    ensures
        r == reported_total_spec(exact, estimate, downloaded, inferred),
{
    let total = if exact > 0 {
        exact
    } else {
        estimate
    };
    match inferred {
        Some(t) => {
            if total == 0 || total < SMALL_TOTAL || total < downloaded {
                t
            } else {
                total
            }
        },
        None => total,
    }
}

/// Parallel fragment downloads for the extractor: the connection setting,
/// at most 16.
pub fn fragment_count(connections: u64) -> (r: u32)
    ensures
        r == if connections < 16 { connections } else { 16 },
{
    if connections < 16 {
        connections as u32
    } else {
        16
    }
}

pub open spec fn progress_template() -> Seq<char> {
    "download:DLM:%(progress._percent_str)s|%(progress.downloaded_bytes)s|%(progress.total_bytes)s|%(progress.total_bytes_estimate)s|%(progress.speed)s|%(progress.eta)s"@
}

/// The extractor's arguments, in order.
pub open spec fn extractor_args(
    format_id: Seq<char>,
    output_dir: Seq<char>,
    fragments: u32,
    speed_limit: u64,
    url: Seq<char>,
) -> Seq<Seq<char>> {
    let base = seq![
        "--newline"@,
        "--progress"@,
        "--progress-template"@,
        progress_template(),
        "-f"@,
        format_id,
        "-o"@,
        output_dir + "/%(title)s.%(ext)s"@,
        "--no-playlist"@,
    ];
    let with_fragments = if fragments > 1 {
        base + seq!["--concurrent-fragments"@, dec(fragments as nat)]
    } else {
        base
    };
    let with_limit = if speed_limit > 0 {
        with_fragments + seq!["--limit-rate"@, dec((speed_limit / 1024) as nat) + "K"@]
    } else {
        with_fragments
    };
    with_limit.push(url)
}

pub fn ytdlp_args(format_id: &str, output_dir: &str, fragments: u32, speed_limit: u64, url: &str) -> (r: Vec<String>)
    ensures
        r@.len() == extractor_args(format_id@, output_dir@, fragments, speed_limit, url@).len(),
        forall|i: int|
            0 <= i < r@.len() ==> (#[trigger] r@[i])@ == extractor_args(
                format_id@,
                output_dir@,
                fragments,
                speed_limit,
                url@,
            )[i],
{
    let mut a: Vec<String> = Vec::new();
    a.push(String::from_str("--newline"));
    a.push(String::from_str("--progress"));
    a.push(String::from_str("--progress-template"));
    a.push(String::from_str("download:DLM:%(progress._percent_str)s|%(progress.downloaded_bytes)s|%(progress.total_bytes)s|%(progress.total_bytes_estimate)s|%(progress.speed)s|%(progress.eta)s"));
    a.push(String::from_str("-f"));
    a.push(String::from_str(format_id));
    a.push(String::from_str("-o"));
    a.push(output_template(output_dir));
    a.push(String::from_str("--no-playlist"));
    let ghost base = seq![
        "--newline"@,
        "--progress"@,
        "--progress-template"@,
        progress_template(),
        "-f"@,
        format_id@,
        "-o"@,
        output_dir@ + "/%(title)s.%(ext)s"@,
        "--no-playlist"@,
    ];
    assert(a@.map_values(|s: String| s@) =~= base);
    if fragments > 1 {
        a.push(String::from_str("--concurrent-fragments"));
        a.push(decimal(fragments as u64));
    }
    let ghost wf = if fragments > 1 {
        base + seq!["--concurrent-fragments"@, dec(fragments as nat)]
    } else {
        base
    };
    assert(a@.map_values(|s: String| s@) =~= wf);
    if speed_limit > 0 {
        a.push(String::from_str("--limit-rate"));
        a.push(decimal(speed_limit / 1024).concat("K"));
    }
    let ghost wl = if speed_limit > 0 {
        wf + seq!["--limit-rate"@, dec((speed_limit / 1024) as nat) + "K"@]
    } else {
        wf
    };
    assert(a@.map_values(|s: String| s@) =~= wl);
    a.push(String::from_str(url));
    proof {
        let e = extractor_args(format_id@, output_dir@, fragments, speed_limit, url@);
        assert(a@.map_values(|s: String| s@) =~= e);
        assert forall|i: int| 0 <= i < a@.len() implies (#[trigger] a@[i])@ == e[i] by {
            assert(a@.map_values(|s: String| s@)[i] == a@[i]@);
        }
    }
    a
}

/// Where the extractor binary lives: `bin/yt-dlp` in the engine's folder.
pub open spec fn ytdlp_path_spec(base: Option<Seq<char>>) -> Seq<char> {
    join(join(data_folder(base), "bin"@), "yt-dlp"@)
}

/// The folder holding the extractor binary, under the user's data folder.
pub fn get_ytdlp_dir() -> (r: String)
    ensures
        exists|base: Option<Seq<char>>| r@ == join(#[trigger] data_folder(base), "bin"@),
{
    let base = os_data_dir();
    let ghost b = crate::probe::opt_view(base);
    let data = data_folder_of(base);
    let r = join_path(data.as_str(), "bin");
    assert(r@ == join(data_folder(b), "bin"@));
    r
}

/// The id of a video job: `video_<milliseconds>`.
pub fn video_job_id(now_millis: i64) -> (r: String)
    ensures
        r@ == "video_"@ + dec_signed(now_millis as int),
{
    String::from_str("video_").concat(decimal_signed(now_millis).as_str())
}

/// Where the extractor writes a video inside `dir`, named from its title.
pub fn output_template(dir: &str) -> (r: String)
    ensures
        r@ == dir@ + "/%(title)s.%(ext)s"@,
{
    String::from_str(dir).concat("/%(title)s.%(ext)s")
}

pub fn ytdlp_path_in(base: Option<String>) -> (r: String)
    ensures
        r@ == ytdlp_path_spec(
            match base {
                Some(b) => Some(b@),
                None => None,
            },
        ),
{
    let data = data_folder_of(base);
    let bin = join_path(data.as_str(), "bin");
    join_path(bin.as_str(), "yt-dlp")
}

/// The extractor's path under the user's data folder.
pub fn get_ytdlp_path() -> (r: String)
    ensures
        exists|base: Option<Seq<char>>| r@ == #[trigger] ytdlp_path_spec(base),
{
    let base = os_data_dir();
    let ghost b = crate::probe::opt_view(base);
    let r = ytdlp_path_in(base);
    assert(r@ == ytdlp_path_spec(b));
    r
}

} // verus!
