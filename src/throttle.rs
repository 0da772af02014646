//! The rate limiter: each segment paces itself to an equal share of the
//! job's byte-per-second cap, measured over a window that restarts every
//! second.

use vstd::prelude::*;

verus! {

pub const NANOS_PER_SEC: u64 = 1_000_000_000;

pub const NANOS_PER_MILLI: u64 = 1_000_000;

/// A pause shorter than this many milliseconds is skipped.
pub const MIN_DELAY_MS: u64 = 5;

/// A segment's share of a cap of `global` bytes per second over `segments`
/// segments; at least one byte per second.
pub open spec fn per_segment_limit(global: u64, segments: u64) -> u64 {
    if segments == 0 || global / segments == 0 {
        1
    } else {
        global / segments
    }
}

/// The pause, in milliseconds, that brings `bytes` received within a window
/// `elapsed_ns` old back to `limit` bytes per second: the time the bytes
/// should have taken less the time they took, when that exceeds
/// `MIN_DELAY_MS`; otherwise none.
pub open spec fn raw_delay_ms(bytes: u64, limit: u64, elapsed_ns: u64) -> int {
    let expected_ns = (bytes as int * NANOS_PER_SEC as int) / limit as int;
    if expected_ns > elapsed_ns {
        let d = (expected_ns - elapsed_ns) / NANOS_PER_MILLI as int;
        if d > MIN_DELAY_MS {
            d
        } else {
            0
        }
    } else {
        0
    }
}

/// The bytes one segment has received in its current measurement window.
pub struct Throttle {
    pub window_bytes: u64,
}

impl Throttle {
    /// A fresh window.
    pub fn new() -> (r: Self)
        ensures
            r.window_bytes == 0,
    {
        Throttle { window_bytes: 0 }
    }

    /// Accounts a buffer of `len` bytes, `elapsed_ns` into the window, under
    /// a cap of `global_limit` bytes per second shared by `segments`
    /// segments (0: unlimited), and returns how long to pause.
    pub fn pace(&mut self, len: u64, global_limit: u64, segments: u64, elapsed_ns: u64) -> (delay_ms:
        u64)
        ensures
            global_limit == 0 ==> delay_ms == 0 && final(self).window_bytes == old(self).window_bytes,
            global_limit > 0 ==> final(self).window_bytes == if old(self).window_bytes + len
                <= u64::MAX {
                (old(self).window_bytes + len) as u64
            } else {
                u64::MAX
            },
            global_limit > 0 ==> delay_ms == if raw_delay_ms(
                final(self).window_bytes,
                per_segment_limit(global_limit, segments),
                elapsed_ns,
            ) <= u64::MAX {
                raw_delay_ms(
                    final(self).window_bytes,
                    per_segment_limit(global_limit, segments),
                    elapsed_ns,
                ) as u64
            } else {
                u64::MAX
            },
    {
        if global_limit == 0 {
            return 0;
        }
        self.window_bytes = self.window_bytes.saturating_add(len);
        let share = if segments == 0 || global_limit / segments == 0 {
            1
        } else {
            global_limit / segments
        };
        let wb = self.window_bytes as u128;
        assert(wb * 1_000_000_000u128 <= u64::MAX as u128 * 1_000_000_000u128) by (nonlinear_arith)
            requires
                wb <= u64::MAX,
        ;
        let expected_ns: u128 = (wb * NANOS_PER_SEC as u128) / share as u128;
        if expected_ns > elapsed_ns as u128 {
            let d: u128 = (expected_ns - elapsed_ns as u128) / NANOS_PER_MILLI as u128;
            if d > MIN_DELAY_MS as u128 {
                if d > u64::MAX as u128 {
                    u64::MAX
                } else {
                    d as u64
                }
            } else {
                0
            }
        } else {
            0
        }
    }

    /// Restarts the window once it is a second old, `elapsed_ns` into it;
    /// returns whether it did.
    pub fn roll_window(&mut self, elapsed_ns: u64) -> (reset: bool)
        ensures
            reset == (elapsed_ns >= NANOS_PER_SEC),
            reset ==> final(self).window_bytes == 0,
            !reset ==> final(self).window_bytes == old(self).window_bytes,
    {
        if elapsed_ns >= NANOS_PER_SEC {
            self.window_bytes = 0;
            true
        } else {
            false
        }
    }
}

/// After the pause the pacer asks for, the bytes of the window (the last
/// buffer included) fit the segment's budget for the time that will have
/// passed, give or take 6 ms.
pub proof fn lemma_pace_keeps_budget(bytes: u64, limit: u64, elapsed_ns: u64)
    requires
        limit >= 1,
    ensures
        bytes as int * NANOS_PER_SEC < limit as int * (elapsed_ns + raw_delay_ms(bytes, limit, elapsed_ns)
            * NANOS_PER_MILLI + 6 * NANOS_PER_MILLI),
{
    let b = bytes as int * NANOS_PER_SEC as int;
    let l = limit as int;
    let e = b / l;
    assert(b < l * (e + 1)) by (nonlinear_arith)
        requires
            l >= 1,
            e == b / l,
            b >= 0,
    ;
    let d = raw_delay_ms(bytes, limit, elapsed_ns);
    if e > elapsed_ns {
        let q = (e - elapsed_ns) / NANOS_PER_MILLI as int;
        assert(e - elapsed_ns < (q + 1) * NANOS_PER_MILLI as int) by (nonlinear_arith)
            requires
                q == (e - elapsed_ns) / 1_000_000int,
                e - elapsed_ns > 0,
        ;
        assert(e + 1 <= elapsed_ns + d * NANOS_PER_MILLI + 6 * NANOS_PER_MILLI);
    }
    assert(l * (e + 1) <= l * (elapsed_ns + d * NANOS_PER_MILLI + 6 * NANOS_PER_MILLI)) by (
    nonlinear_arith)
        requires
            l >= 1,
            e + 1 <= elapsed_ns + d * NANOS_PER_MILLI + 6 * NANOS_PER_MILLI,
    ;
}

/// Bytes a segment's window holds once buffers `0..=i` of `lens` have
/// arrived.
pub open spec fn window_bytes_after(lens: Seq<u64>, i: int) -> int
    decreases i + 1,
{
    if i < 0 {
        0
    } else {
        window_bytes_after(lens, i - 1) + lens[i]
    }
}

/// Rate-limit respect within a measurement window: when a segment receives
/// buffer `i` (of `lens[i]` bytes) `ts[i]` nanoseconds into the window and
/// always waits out the pause the pacer asks for before the next one, then
/// at every receipt the window's bytes exceed the segment's share for the
/// time elapsed (plus 6 ms) by less than that one buffer.
pub proof fn lemma_paced_window(ts: Seq<u64>, lens: Seq<u64>, share: u64)
    requires
        share >= 1,
        ts.len() == lens.len(),
        forall|i: int| 0 <= i < lens.len() ==> #[trigger] window_bytes_after(lens, i) <= u64::MAX,
        forall|i: int|
            0 <= i < lens.len() - 1 ==> ts[i + 1] >= ts[i] + raw_delay_ms(
                #[trigger] window_bytes_after(lens, i) as u64,
                share,
                ts[i],
            ) * NANOS_PER_MILLI,
    ensures
        forall|i: int|
            0 <= i < lens.len() ==> #[trigger] window_bytes_after(lens, i) * NANOS_PER_SEC < share * (ts[i] + 6
                * NANOS_PER_MILLI) + lens[i] * NANOS_PER_SEC,
{
    assert forall|i: int| 0 <= i < lens.len() implies #[trigger] window_bytes_after(lens, i) * NANOS_PER_SEC
        < share * (ts[i] + 6 * NANOS_PER_MILLI) + lens[i] * NANOS_PER_SEC by {
        let s = share as int;
        if i == 0 {
            assert(window_bytes_after(lens, -1) == 0);
            assert(s * (ts[0] + 6 * NANOS_PER_MILLI) > 0) by (nonlinear_arith)
                requires
                    s >= 1,
                    ts[0] >= 0,
            ;
        } else {
            let prev = window_bytes_after(lens, i - 1);
            assert(window_bytes_after(lens, i - 1) <= u64::MAX);
            lemma_pace_keeps_budget(prev as u64, share, ts[i - 1]);
            let d = raw_delay_ms(prev as u64, share, ts[i - 1]);
            let a = ts[i - 1] + d * NANOS_PER_MILLI + 6 * NANOS_PER_MILLI;
            let b = ts[i] + 6 * NANOS_PER_MILLI;
            assert(ts[i] >= ts[i - 1] + d * NANOS_PER_MILLI);
            assert(s * a <= s * b) by (nonlinear_arith)
                requires
                    s >= 1,
                    a <= b,
            ;
        }
    }
}

/// With a cap of at least one byte per second per segment, the segments'
/// shares add up to no more than the cap.
pub proof fn lemma_shares_within_cap(global: u64, segments: u64)
    requires
        1 <= segments <= global,
    ensures
        segments * per_segment_limit(global, segments) <= global,
{
    let q = global / segments;
    assert(q >= 1) by (nonlinear_arith)
        requires
            1 <= segments <= global,
            q == global / segments,
    ;
    assert(segments * q <= global) by (nonlinear_arith)
        requires
            segments >= 1,
            q == global / segments,
    ;
}

pub open spec fn sum_nat(s: Seq<nat>) -> nat
    decreases s.len(),
{
    if s.len() == 0 {
        0
    } else {
        sum_nat(s.drop_last()) + s.last()
    }
}

proof fn lemma_sum_bound(ws: Seq<nat>, share: nat, t: nat)
    requires
        forall|i: int| 0 <= i < ws.len() ==> #[trigger] ws[i] * NANOS_PER_SEC <= share * t,
    ensures
        sum_nat(ws) * NANOS_PER_SEC <= ws.len() * (share * t),
    decreases ws.len(),
{
    if ws.len() > 0 {
        let init = ws.drop_last();
        assert forall|i: int| 0 <= i < init.len() implies #[trigger] init[i] * NANOS_PER_SEC <= share * t by {
            assert(init[i] == ws[i]);
        }
        lemma_sum_bound(init, share, t);
        assert(ws.last() == ws[ws.len() - 1]);
        assert(sum_nat(ws) * NANOS_PER_SEC == sum_nat(init) * NANOS_PER_SEC + ws.last() * NANOS_PER_SEC)
            by (nonlinear_arith)
            requires
                sum_nat(ws) == sum_nat(init) + ws.last(),
        ;
        assert(ws.len() * (share * t) == init.len() * (share * t) + share * t) by (nonlinear_arith)
            requires
                ws.len() == init.len() + 1,
        ;
    }
}

/// Rate-limit respect for a job: when every one of its `n` segments keeps
/// the bytes of its window within its share for `t` nanoseconds, all the
/// segments together stay within the job's cap of `global` bytes per
/// second over those `t` nanoseconds.
pub proof fn lemma_job_within_cap(ws: Seq<nat>, global: u64, t: nat)
    requires
        1 <= ws.len() <= global,
        forall|i: int|
            0 <= i < ws.len() ==> #[trigger] ws[i] * NANOS_PER_SEC <= per_segment_limit(
                global,
                ws.len() as u64,
            ) * t,
    ensures
        sum_nat(ws) * NANOS_PER_SEC <= global * t,
{
    let n = ws.len() as u64;
    let share = per_segment_limit(global, n) as nat;
    lemma_sum_bound(ws, share, t);
    lemma_shares_within_cap(global, n);
    assert(ws.len() * (share * t) <= global * t) by (nonlinear_arith)
        requires
            ws.len() * share <= global,
    ;
}

} // verus!
