//! In-memory model of the persistent call-log table.
//!
//! One row per reported tool call, append-only, with nondecreasing
//! timestamps (seconds). The health and latency queries of the selection
//! engine are defined over it: how many error rows a `(tool, url)` pair has
//! in the recent window, and the sum and count of its most recent successful
//! call times.

use vstd::prelude::*;

use crate::ERROR_WINDOW_SECONDS;

verus! {

/// One reported tool call.
pub struct LogRow {
    pub tool_name: String,
    pub mcp_url: String,
    pub total_time_ms: u64,
    pub is_error: bool,
    /// Seconds; assigned by the store, nondecreasing over the log.
    pub timestamp: u64,
}

/// The append-only call log.
pub struct CallLog {
    pub rows: Vec<LogRow>,
}

/// Row `r` reports a call of `tool` at `url`.
pub open spec fn row_matches(r: LogRow, tool: Seq<char>, url: Seq<char>) -> bool {
    r.tool_name@ == tool && r.mcp_url@ == url
}

/// A row at `ts` lies within the recent-error window ending at `now`.
pub open spec fn in_window(ts: u64, now: u64) -> bool {
    ts + ERROR_WINDOW_SECONDS > now
}

/// Number of error rows for `(tool, url)` within the window ending at `now`.
pub open spec fn recent_error_count(
    rows: Seq<LogRow>,
    tool: Seq<char>,
    url: Seq<char>,
    now: u64,
) -> nat
    decreases rows.len(),
{
    if rows.len() == 0 {
        0
    } else {
        recent_error_count(rows.drop_last(), tool, url, now) + if row_matches(
            rows.last(),
            tool,
            url,
        ) && rows.last().is_error && in_window(rows.last().timestamp, now) {
            1nat
        } else {
            0nat
        }
    }
}

/// The times of the up-to-`k` most recent successful rows for `(tool, url)`,
/// most recent first.
pub open spec fn recent_ok_times(rows: Seq<LogRow>, tool: Seq<char>, url: Seq<char>, k: nat) -> Seq<
    u64,
>
    decreases rows.len(),
{
    if rows.len() == 0 || k == 0 {
        Seq::empty()
    } else if row_matches(rows.last(), tool, url) && !rows.last().is_error {
        seq![rows.last().total_time_ms] + recent_ok_times(rows.drop_last(), tool, url, (k - 1) as nat)
    } else {
        recent_ok_times(rows.drop_last(), tool, url, k)
    }
}

/// Sum of a sequence of call times.
pub open spec fn sum_times(s: Seq<u64>) -> int
    decreases s.len(),
{
    if s.len() == 0 {
        0
    } else {
        s.first() + sum_times(s.drop_first())
    }
}

pub proof fn lemma_recent_ok_times_bound(rows: Seq<LogRow>, tool: Seq<char>, url: Seq<char>, k: nat)
    ensures
        recent_ok_times(rows, tool, url, k).len() <= k,
        0 <= sum_times(recent_ok_times(rows, tool, url, k)),
        sum_times(recent_ok_times(rows, tool, url, k)) <= recent_ok_times(
            rows,
            tool,
            url,
            k,
        ).len() * (u64::MAX as int),
    decreases rows.len(),
{
    if rows.len() == 0 || k == 0 {
    } else if row_matches(rows.last(), tool, url) && !rows.last().is_error {
        lemma_recent_ok_times_bound(rows.drop_last(), tool, url, (k - 1) as nat);
        let rest = recent_ok_times(rows.drop_last(), tool, url, (k - 1) as nat);
        let whole = recent_ok_times(rows, tool, url, k);
        assert(whole =~= seq![rows.last().total_time_ms] + rest);
        assert(whole.drop_first() =~= rest);
        assert(sum_times(whole) == rows.last().total_time_ms + sum_times(rest));
        assert(sum_times(rest) <= rest.len() * (u64::MAX as int));
        assert(rows.last().total_time_ms + rest.len() * (u64::MAX as int) <= (rest.len() + 1) * (
        u64::MAX as int)) by (nonlinear_arith);
    } else {
        lemma_recent_ok_times_bound(rows.drop_last(), tool, url, k);
    }
}

impl CallLog {
    /// Timestamps never decrease along the log.
    pub open spec fn wf(self) -> bool {
        forall|i: int, j: int|
            0 <= i < j < self.rows@.len() ==> self.rows@[i].timestamp <= self.rows@[j].timestamp
    }

    /// An empty log.
    pub fn new() -> (r: CallLog)
        ensures
            r.wf(),
            r.rows@ =~= Seq::<LogRow>::empty(),
    {
        CallLog { rows: Vec::new() }
    }

    /// Append one reported call. The caller supplies the store's clock,
    /// which never runs backwards.
    pub fn append(
        &mut self,
        tool_name: String,
        mcp_url: String,
        total_time_ms: u64,
        is_error: bool,
        timestamp: u64,
    )
        requires
            old(self).wf(),
            old(self).rows@.len() > 0 ==> old(self).rows@.last().timestamp <= timestamp,
        ensures
            final(self).wf(),
            final(self).rows@ == old(self).rows@.push(
                (LogRow { tool_name, mcp_url, total_time_ms, is_error, timestamp }),
            ),
    {
        let ghost pre = self.rows@;
        self.rows.push(LogRow { tool_name, mcp_url, total_time_ms, is_error, timestamp });
        proof {
            assert forall|i: int, j: int|
                0 <= i < j < self.rows@.len() implies self.rows@[i].timestamp
                <= self.rows@[j].timestamp by {
                if j < pre.len() {
                } else {
                    assert(self.rows@[j].timestamp == timestamp);
                    if pre.len() > 0 && i < pre.len() {
                        assert(pre[i].timestamp <= pre.last().timestamp);
                    }
                }
            }
        }
    }

    /// Number of recorded rows.
    pub fn len(&self) -> (r: usize)
        ensures
            r == self.rows@.len(),
    {
        self.rows.len()
    }

    /// How many error rows `(tool, url)` has within the window ending at
    /// `now`.
    pub fn error_count(&self, tool_name: &String, mcp_url: &String, now: u64) -> (r: usize)
        ensures
            r == recent_error_count(self.rows@, tool_name@, mcp_url@, now),
    {
        let n = self.rows.len();
        let mut count: usize = 0;
        let mut i: usize = 0;
        while i < n
            invariant
                i <= n,
                n == self.rows@.len(),
                count == recent_error_count(self.rows@.take(i as int), tool_name@, mcp_url@, now),
                count <= i,
            decreases n - i,
        {
            proof {
                assert(self.rows@.take(i + 1).drop_last() =~= self.rows@.take(i as int));
                assert(self.rows@.take(i + 1).last() == self.rows@[i as int]);
            }
            let row = &self.rows[i];
            if row.tool_name == *tool_name && row.mcp_url == *mcp_url && row.is_error && (row
                .timestamp as u128) + (ERROR_WINDOW_SECONDS as u128) > (now as u128) {
                count += 1;
            }
            i += 1;
        }
        proof {
            assert(self.rows@.take(n as int) =~= self.rows@);
        }
        count
    }

    /// Sum and count of the times of the up-to-`k` most recent successful
    /// rows for `(tool, url)`.
    pub fn recent_ok_stats(&self, tool_name: &String, mcp_url: &String, k: usize) -> (r: (
        u128,
        usize,
    ))
        ensures
            ({
                let times = recent_ok_times(self.rows@, tool_name@, mcp_url@, k as nat);
                r.0 == sum_times(times) && r.1 == times.len()
            }),
    {
        let ghost whole = recent_ok_times(self.rows@, tool_name@, mcp_url@, k as nat);
        let mut sum: u128 = 0;
        let mut count: usize = 0;
        let mut remaining = k;
        let mut i = self.rows.len();
        proof {
            assert(self.rows@.take(i as int) =~= self.rows@);
            lemma_recent_ok_times_bound(self.rows@, tool_name@, mcp_url@, k as nat);
            assert((whole.len() as int) * (u64::MAX as int) <= (usize::MAX as int) * (
            u64::MAX as int)) by (nonlinear_arith)
                requires
                    whole.len() <= usize::MAX,
            ;
            assert((usize::MAX as int) * (u64::MAX as int) < u128::MAX as int) by (nonlinear_arith);
        }
        while i > 0 && remaining > 0
            invariant
                i <= self.rows@.len(),
                remaining <= k,
                count == k - remaining,
                whole == recent_ok_times(self.rows@, tool_name@, mcp_url@, k as nat),
                sum_times(whole) <= (usize::MAX as int) * (u64::MAX as int),
                (usize::MAX as int) * (u64::MAX as int) < u128::MAX as int,
                ({
                    let done = recent_ok_times(
                        self.rows@.take(i as int),
                        tool_name@,
                        mcp_url@,
                        remaining as nat,
                    );
                    &&& whole.len() == count + done.len()
                    &&& sum_times(whole) == sum + sum_times(done)
                    &&& 0 <= sum_times(done)
                }),
            decreases i,
        {
            proof {
                assert(self.rows@.take(i as int).drop_last() =~= self.rows@.take(i - 1));
                assert(self.rows@.take(i as int).last() == self.rows@[i - 1]);
            }
            let row = &self.rows[i - 1];
            if row.tool_name == *tool_name && row.mcp_url == *mcp_url && !row.is_error {
                proof {
                    let done = recent_ok_times(
                        self.rows@.take(i as int),
                        tool_name@,
                        mcp_url@,
                        remaining as nat,
                    );
                    let rest = recent_ok_times(
                        self.rows@.take(i - 1),
                        tool_name@,
                        mcp_url@,
                        (remaining - 1) as nat,
                    );
                    assert(done =~= seq![self.rows@[i - 1].total_time_ms] + rest);
                    assert(done.drop_first() =~= rest);
                    assert(sum_times(done) == self.rows@[i - 1].total_time_ms + sum_times(rest));
                    lemma_recent_ok_times_bound(
                        self.rows@.take(i - 1),
                        tool_name@,
                        mcp_url@,
                        (remaining - 1) as nat,
                    );
                }
                sum = sum + row.total_time_ms as u128;
                count += 1;
                remaining -= 1;
            } else {
                proof {
                    assert(recent_ok_times(
                        self.rows@.take(i as int),
                        tool_name@,
                        mcp_url@,
                        remaining as nat,
                    ) == recent_ok_times(
                        self.rows@.take(i - 1),
                        tool_name@,
                        mcp_url@,
                        remaining as nat,
                    ));
                }
            }
            i -= 1;
        }
        proof {
            let done = recent_ok_times(
                self.rows@.take(i as int),
                tool_name@,
                mcp_url@,
                remaining as nat,
            );
            if i == 0 {
                assert(self.rows@.take(0) =~= Seq::<LogRow>::empty());
                assert(done =~= Seq::<u64>::empty());
            } else {
                assert(done =~= Seq::<u64>::empty());
            }
        }
        (sum, count)
    }
}

} // verus!
