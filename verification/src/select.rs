//! Per-cluster selection of the fastest healthy provider.
//!
//! Every point carries health statistics for its `(tool, url)` pair: the
//! recent error count, and the sum and count of its most recent successful
//! call times. A pair with too many recent errors is unhealthy. Within each
//! cluster the healthy members compete by mean call time (no recorded call
//! means a mean of zero); if no member is healthy the whole cluster
//! competes. Scores are compared exactly, as rationals; the earliest member
//! wins ties.

use vstd::prelude::*;

use crate::calllog::{CallLog, recent_error_count, recent_ok_times, sum_times,
    lemma_recent_ok_times_bound};
use crate::index::{ToolPoint, ToolResult, clone_point};
use crate::{MAX_TOOL_CALL_LOGS, N_ERROR_THRESHOLD};

verus! {

/// Health and latency statistics of one `(tool, url)` pair.
pub struct PairStats {
    /// Error rows within the recent window.
    pub err_count: usize,
    /// Sum of the times of the most recent successful calls...
    pub ok_sum: u128,
    /// ...and how many entered that sum (at most `MAX_TOOL_CALL_LOGS`).
    pub ok_count: usize,
}

impl PairStats {
    pub open spec fn wf(self) -> bool {
        &&& self.ok_count <= MAX_TOOL_CALL_LOGS
        &&& self.ok_sum <= (self.ok_count as int) * (u64::MAX as int)
        &&& (self.ok_count == 0 ==> self.ok_sum == 0)
    }

    /// The pair has too many recent errors to be considered healthy.
    pub open spec fn unhealthy(self) -> bool {
        self.err_count >= N_ERROR_THRESHOLD
    }
}

/// The score of a pair is the mean of its recent successful call times, or
/// zero if it has none; as an exact rational, numerator over denominator.
pub open spec fn score_num(s: PairStats) -> int {
    if s.ok_count == 0 {
        0
    } else {
        s.ok_sum as int
    }
}

pub open spec fn score_den(s: PairStats) -> int {
    if s.ok_count == 0 {
        1
    } else {
        s.ok_count as int
    }
}

/// Exact comparison of two scores.
pub open spec fn score_le(a: PairStats, b: PairStats) -> bool {
    score_num(a) * score_den(b) <= score_num(b) * score_den(a)
}

/// Position (within `members`) of the first member of `members[0 .. j]`
/// whose score is minimal.
pub open spec fn best_upto(members: Seq<usize>, stats: Seq<PairStats>, j: int) -> int
    decreases j,
{
    if j <= 1 {
        0
    } else {
        let b = best_upto(members, stats, j - 1);
        if score_le(stats[members[b] as int], stats[members[j - 1] as int]) {
            b
        } else {
            j - 1
        }
    }
}

pub proof fn lemma_best_upto_range(members: Seq<usize>, stats: Seq<PairStats>, j: int)
    requires
        1 <= j <= members.len(),
    ensures
        0 <= best_upto(members, stats, j) < j,
    decreases j,
{
    if j > 1 {
        lemma_best_upto_range(members, stats, j - 1);
    }
}

/// Exact comparison, executable: cross-multiplied in 128-bit integers.
fn score_le_exec(a: &PairStats, b: &PairStats) -> (r: bool)
    requires
        a.wf(),
        b.wf(),
    ensures
        r == score_le(*a, *b),
{
    let na: u128 = if a.ok_count == 0 {
        0
    } else {
        a.ok_sum
    };
    let da: u128 = if a.ok_count == 0 {
        1
    } else {
        a.ok_count as u128
    };
    let nb: u128 = if b.ok_count == 0 {
        0
    } else {
        b.ok_sum
    };
    let db: u128 = if b.ok_count == 0 {
        1
    } else {
        b.ok_count as u128
    };
    proof {
        assert(na * db <= (3 * (u64::MAX as int)) * 3 && nb * da <= (3 * (u64::MAX as int)) * 3)
            by (nonlinear_arith)
            requires
                0 <= na <= 3 * (u64::MAX as int),
                0 <= nb <= 3 * (u64::MAX as int),
                1 <= da <= 3,
                1 <= db <= 3,
        ;
    }
    na * db <= nb * da
}

/// Pick the member of `cluster` that the selection rule chooses: the first
/// member with the least score among the healthy members, or among all
/// members when none is healthy. `None` only for an empty cluster.
pub fn pick_fastest(cluster: &Vec<usize>, stats: &Vec<PairStats>) -> (r: Option<usize>)
    requires
        forall|t: int| 0 <= t < cluster@.len() ==> (#[trigger] cluster@[t]) < stats@.len(),
        forall|i: int| 0 <= i < stats@.len() ==> (#[trigger] stats@[i]).wf(),
    ensures
        r is Some <==> cluster@.len() > 0,
        r matches Some(m) ==> {
            let considered = considered_members(cluster@, stats@);
            &&& considered.len() > 0
            &&& m == considered[best_upto(considered, stats@, considered.len() as int)]
            &&& m < stats@.len()
        },
{
    let healthy = filter_healthy(cluster, stats);
    let considered = if healthy.len() > 0 {
        healthy
    } else {
        copy_indices(cluster)
    };
    proof {
        assert(considered@ == considered_members(cluster@, stats@));
    }
    if considered.len() == 0 {
        return None;
    }
    let n = considered.len();
    let mut best: usize = considered[0];
    let mut bpos: usize = 0;
    let mut j: usize = 1;
    while j < n
        invariant
            1 <= j <= n,
            n == considered@.len(),
            forall|t: int| 0 <= t < considered@.len() ==> (#[trigger] considered@[t])
                < stats@.len(),
            forall|i: int| 0 <= i < stats@.len() ==> (#[trigger] stats@[i]).wf(),
            bpos < j,
            bpos == best_upto(considered@, stats@, j as int),
            best == considered@[bpos as int],
        decreases n - j,
    {
        proof {
            lemma_best_upto_range(considered@, stats@, j as int);
        }
        let cand = considered[j];
        if !score_le_exec(&stats[best], &stats[cand]) {
            best = cand;
            bpos = j;
        }
        j += 1;
    }
    Some(best)
}

/// The members the selection rule considers: the healthy ones, or all of
/// them when none is healthy.
pub open spec fn considered_members(cluster: Seq<usize>, stats: Seq<PairStats>) -> Seq<usize> {
    let healthy = cluster.filter(|t: usize| !stats[t as int].unhealthy());
    if healthy.len() > 0 {
        healthy
    } else {
        cluster
    }
}

/// The healthy members of a cluster, in order.
fn filter_healthy(cluster: &Vec<usize>, stats: &Vec<PairStats>) -> (r: Vec<usize>)
    requires
        forall|t: int| 0 <= t < cluster@.len() ==> (#[trigger] cluster@[t]) < stats@.len(),
    ensures
        r@ == cluster@.filter(|t: usize| !stats@[t as int].unhealthy()),
        forall|t: int| 0 <= t < r@.len() ==> (#[trigger] r@[t]) < stats@.len(),
{
    let n = cluster.len();
    let mut r: Vec<usize> = Vec::new();
    let mut i: usize = 0;
    while i < n
        invariant
            i <= n,
            n == cluster@.len(),
            forall|t: int| 0 <= t < cluster@.len() ==> (#[trigger] cluster@[t]) < stats@.len(),
            forall|t: int| 0 <= t < r@.len() ==> (#[trigger] r@[t]) < stats@.len(),
            r@ == cluster@.take(i as int).filter(|t: usize| !stats@[t as int].unhealthy()),
        decreases n - i,
    {
        proof {
            reveal(Seq::filter);
            assert(cluster@.take(i + 1).drop_last() =~= cluster@.take(i as int));
            assert(cluster@.take(i + 1).last() == cluster@[i as int]);
        }
        let t = cluster[i];
        if stats[t].err_count < N_ERROR_THRESHOLD {
            r.push(t);
        }
        i += 1;
    }
    proof {
        assert(cluster@.take(n as int) =~= cluster@);
    }
    r
}

/// An element-wise copy of an index list.
fn copy_indices(v: &Vec<usize>) -> (r: Vec<usize>)
    ensures
        r@ == v@,
{
    let n = v.len();
    let mut r: Vec<usize> = Vec::new();
    let mut i: usize = 0;
    while i < n
        invariant
            i <= n,
            n == v@.len(),
            r@ == v@.take(i as int),
        decreases n - i,
    {
        r.push(v[i]);
        proof {
            assert(v@.take(i + 1) =~= v@.take(i as int).push(v@[i as int]));
        }
        i += 1;
    }
    proof {
        assert(v@.take(n as int) =~= v@);
    }
    r
}

/// The point index each cluster's selection settles on.
pub open spec fn selected_of(cluster: Seq<usize>, stats: Seq<PairStats>) -> int {
    let considered = considered_members(cluster, stats);
    considered[best_upto(considered, stats, considered.len() as int)] as int
}

/// Run the selection over every cluster: for each cluster, the name and URL
/// of its chosen point, in cluster order.
pub fn select_tools(points: &Vec<ToolPoint>, clusters: &Vec<Vec<usize>>, stats: &Vec<PairStats>)
    -> (r: Vec<ToolResult>)
    requires
        stats@.len() == points@.len(),
        forall|i: int| 0 <= i < stats@.len() ==> (#[trigger] stats@[i]).wf(),
        forall|c: int| 0 <= c < clusters@.len() ==> (#[trigger] clusters@[c])@.len() > 0,
        forall|c: int, t: int|
            0 <= c < clusters@.len() && 0 <= t < (#[trigger] clusters@[c])@.len()
                ==> (#[trigger] clusters@[c]@[t]) < points@.len(),
    ensures
        r@.len() == clusters@.len(),
        forall|c: int|
            0 <= c < clusters@.len() ==> 0 <= selected_of(#[trigger] clusters@[c]@, stats@)
                < points@.len(),
        forall|c: int|
            0 <= c < clusters@.len() ==> (#[trigger] r@[c]).name == points@[selected_of(
                clusters@[c]@,
                stats@,
            )].name && r@[c].mcp_url == points@[selected_of(clusters@[c]@, stats@)].mcp_url,
{
    let nc = clusters.len();
    let mut r: Vec<ToolResult> = Vec::new();
    let mut c: usize = 0;
    while c < nc
        invariant
            c <= nc,
            nc == clusters@.len(),
            stats@.len() == points@.len(),
            forall|i: int| 0 <= i < stats@.len() ==> (#[trigger] stats@[i]).wf(),
            forall|c2: int| 0 <= c2 < clusters@.len() ==> (#[trigger] clusters@[c2])@.len() > 0,
            forall|c2: int, t: int|
                0 <= c2 < clusters@.len() && 0 <= t < (#[trigger] clusters@[c2])@.len()
                    ==> (#[trigger] clusters@[c2]@[t]) < points@.len(),
            r@.len() == c,
            forall|c2: int|
                0 <= c2 < c ==> 0 <= selected_of(#[trigger] clusters@[c2]@, stats@)
                    < points@.len(),
            forall|c2: int|
                0 <= c2 < c ==> (#[trigger] r@[c2]).name == points@[selected_of(
                    clusters@[c2]@,
                    stats@,
                )].name && r@[c2].mcp_url == points@[selected_of(clusters@[c2]@, stats@)].mcp_url,
        decreases nc - c,
    {
        let cluster = &clusters[c];
        let m = match pick_fastest(cluster, stats) {
            Some(m) => m,
            None => {
                proof {
                    assert(false);
                }
                0
            },
        };
        let point = &points[m];
        let ghost r0 = r@;
        r.push(ToolResult { name: point.name.clone(), mcp_url: point.mcp_url.clone() });
        proof {
            assert(m as int == selected_of(clusters@[c as int]@, stats@));
            assert(r@[c as int].name == points@[m as int].name);
            assert(r@[c as int].mcp_url == points@[m as int].mcp_url);
            assert forall|c2: int|
                0 <= c2 < c + 1 implies (#[trigger] r@[c2]).name == points@[selected_of(
                clusters@[c2]@,
                stats@,
            )].name && r@[c2].mcp_url == points@[selected_of(clusters@[c2]@, stats@)].mcp_url by {
                if c2 < c {
                    assert(r@[c2] == r0[c2]);
                    assert(r0[c2].name == points@[selected_of(clusters@[c2]@, stats@)].name);
                }
            }
        }
        c += 1;
    }
    r
}

/// Compute the statistics of each point's `(tool, url)` pair from the call
/// log, as the selection engine consumes them.
pub fn stats_from_log(points: &Vec<ToolPoint>, log: &CallLog, now: u64) -> (r: Vec<PairStats>)
    ensures
        r@.len() == points@.len(),
        forall|i: int|
            0 <= i < points@.len() ==> {
                let p = points@[i];
                let times = recent_ok_times(log.rows@, p.name@, p.mcp_url@, MAX_TOOL_CALL_LOGS as nat);
                &&& (#[trigger] r@[i]).err_count == recent_error_count(
                    log.rows@,
                    p.name@,
                    p.mcp_url@,
                    now,
                )
                &&& r@[i].ok_sum == sum_times(times)
                &&& r@[i].ok_count == times.len()
                &&& r@[i].wf()
            },
{
    let n = points.len();
    let mut r: Vec<PairStats> = Vec::new();
    let mut i: usize = 0;
    while i < n
        invariant
            i <= n,
            n == points@.len(),
            r@.len() == i,
            forall|i2: int|
                0 <= i2 < i ==> {
                    let p = points@[i2];
                    let times = recent_ok_times(
                        log.rows@,
                        p.name@,
                        p.mcp_url@,
                        MAX_TOOL_CALL_LOGS as nat,
                    );
                    &&& (#[trigger] r@[i2]).err_count == recent_error_count(
                        log.rows@,
                        p.name@,
                        p.mcp_url@,
                        now,
                    )
                    &&& r@[i2].ok_sum == sum_times(times)
                    &&& r@[i2].ok_count == times.len()
                    &&& r@[i2].wf()
                },
        decreases n - i,
    {
        let p = &points[i];
        let err_count = log.error_count(&p.name, &p.mcp_url, now);
        let ok = log.recent_ok_stats(&p.name, &p.mcp_url, MAX_TOOL_CALL_LOGS);
        proof {
            lemma_recent_ok_times_bound(log.rows@, p.name@, p.mcp_url@, MAX_TOOL_CALL_LOGS as nat);
        }
        r.push(PairStats { err_count, ok_sum: ok.0, ok_count: ok.1 });
        i += 1;
    }
    r
}

} // verus!
