//! The bookkeeping of an HTTP load tester: the tally of request outcomes and
//! the latency figures of the report. A latency is carried as the type `L`
//! that the caller measures with; the tally only stores it.
use vstd::prelude::*;

verus! {

/// The outcome of one request.
pub struct RequestResult<L> {
    pub success: bool,
    pub latency_ms: L,
    pub status_code: Option<u16>,
    pub error: Option<String>,
}

/// The tally of all outcomes so far.
pub struct Summary<L> {
    pub success: usize,
    pub failure: usize,
    pub latencies_ms: Vec<L>,
    pub sample_errors: Vec<String>,
    pub status_codes: Vec<u16>,
}

/// At most this many error messages are kept as samples.
pub const MAX_SAMPLE_ERRORS: usize = 5;

impl<L> Summary<L> {
    /// An empty tally.
    pub fn new() -> (s: Self)
        ensures
            s.consistent(),
            s.success == 0,
            s.failure == 0,
            s.latencies_ms@.len() == 0,
            s.sample_errors@.len() == 0,
            s.status_codes@.len() == 0,
    {
        Summary {
            success: 0,
            failure: 0,
            latencies_ms: Vec::new(),
            sample_errors: Vec::new(),
            status_codes: Vec::new(),
        }
    }

    /// The tally's invariant: every outcome counted once and its latency
    /// kept, and no more than [`MAX_SAMPLE_ERRORS`] samples.
    pub open spec fn consistent(&self) -> bool {
        &&& self.success + self.failure == self.latencies_ms@.len()
        &&& self.sample_errors@.len() <= MAX_SAMPLE_ERRORS
    }

    /// Counts one outcome: its success or failure, its latency, its status
    /// code when there is one, and its error message while fewer than
    /// [`MAX_SAMPLE_ERRORS`] are kept.
    pub fn record(&mut self, result: RequestResult<L>)
        requires
            result.success ==> old(self).success < usize::MAX,
            !result.success ==> old(self).failure < usize::MAX,
        ensures
            final(self).success == old(self).success + if result.success {
                1int
            } else {
                0int
            },
            final(self).failure == old(self).failure + if result.success {
                0int
            } else {
                1int
            },
            final(self).latencies_ms@ == old(self).latencies_ms@.push(result.latency_ms),
            final(self).status_codes@ == match result.status_code {
                Some(code) => old(self).status_codes@.push(code),
                None => old(self).status_codes@,
            },
            final(self).sample_errors@ == match result.error {
                Some(e) => if old(self).sample_errors@.len() < MAX_SAMPLE_ERRORS {
                    old(self).sample_errors@.push(e)
                } else {
                    old(self).sample_errors@
                },
                None => old(self).sample_errors@,
            },
            old(self).consistent() ==> final(self).consistent(),
    {
        if result.success {
            self.success = self.success + 1;
        } else {
            self.failure = self.failure + 1;
        }
        self.latencies_ms.push(result.latency_ms);
        if let Some(code) = result.status_code {
            self.status_codes.push(code);
        }
        if let Some(error) = result.error {
            if self.sample_errors.len() < MAX_SAMPLE_ERRORS {
                self.sample_errors.push(error);
            }
        }
    }
}

// ---------------------------------------------------------------------------
// Latency report
// ---------------------------------------------------------------------------
/// Whether `s` is in ascending order.
pub open spec fn sorted(s: Seq<u128>) -> bool {
    forall|i: int, j: int| 0 <= i <= j < s.len() ==> s[i] <= s[j]
}

/// `slice::sort`: the elements of `v` in ascending order.
#[verifier::external_body]
fn sort_latencies(v: &mut Vec<u128>)
    ensures
        final(v)@.to_multiset() == old(v)@.to_multiset(),
        sorted(final(v)@),
{
    v.sort();
}

/// The latencies of the successful outcomes, in the order they came.
pub open spec fn successes(results: Seq<Result<u128, ()>>) -> Seq<u128>
    decreases results.len(),
{
    if results.len() == 0 {
        seq![]
    } else {
        match results.last() {
            Ok(t) => successes(results.drop_last()).push(t),
            Err(_) => successes(results.drop_last()),
        }
    }
}

/// The index of the 90th percentile in `n` sorted values: the smallest
/// index at or below which at least 90% of the values lie.
pub open spec fn p90_index_spec(n: nat) -> int {
    (9 * n + 9) / 10 - 1
}

/// The figures of a load-test report that integers can hold.
pub struct LatencyReport {
    /// The latencies of the successful requests, ascending.
    pub sorted_successes: Vec<u128>,
    pub success_count: usize,
    pub fail_count: usize,
    /// The 90th-percentile latency; zero when nothing succeeded.
    pub p90: u128,
}

/// The index of the 90th percentile in `n` sorted values
/// (`(n * 9).div_ceil(10) - 1`).
pub fn p90_index(n: usize) -> (i: usize)
    requires
        1 <= n <= usize::MAX / 9,
    ensures
        i == p90_index_spec(n as nat),
        i < n,
{
    let m = n * 9;
    let ceil = if m % 10 == 0 {
        m / 10
    } else {
        m / 10 + 1
    };
    ceil - 1
}

/// Computes the report's figures from the outcomes of all requests.
pub fn latency_report(results: &Vec<Result<u128, ()>>) -> (r: LatencyReport)
    requires
        results@.len() <= usize::MAX / 9,
    ensures
        r.sorted_successes@.to_multiset() == successes(results@).to_multiset(),
        sorted(r.sorted_successes@),
        r.success_count == successes(results@).len(),
        r.fail_count == results@.len() - successes(results@).len(),
        r.sorted_successes@.len() == 0 ==> r.p90 == 0,
        r.sorted_successes@.len() > 0 ==> r.p90 == r.sorted_successes@[p90_index_spec(
            r.sorted_successes@.len(),
        )],
{
    let mut success: Vec<u128> = Vec::new();
    let mut i: usize = 0;
    while i < results.len()
        invariant
            0 <= i <= results@.len(),
            success@ == successes(results@.take(i as int)),
            success@.len() <= i,
        decreases results@.len() - i,
    {
        assert(results@.take(i + 1).drop_last() =~= results@.take(i as int));
        match results[i] {
            Ok(t) => {
                success.push(t);
            },
            Err(_) => {},
        }
        i = i + 1;
    }
    assert(results@.take(results@.len() as int) =~= results@);
    let ghost unsorted = success@;
    sort_latencies(&mut success);
    proof {
        unsorted.to_multiset_ensures();
        success@.to_multiset_ensures();
    }
    let success_count = success.len();
    let fail_count = results.len() - success_count;
    let p90 = if success_count == 0 {
        0u128
    } else {
        success[p90_index(success_count)]
    };
    LatencyReport { sorted_successes: success, success_count, fail_count, p90 }
}

} // verus!
