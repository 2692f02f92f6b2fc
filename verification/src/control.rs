//! The run's control decisions: the one-shot cancellation signal, the
//! request-budget controller every worker consults before issuing, and the
//! per-outcome recording step. The driver around them (timers, sockets, the
//! fan-out channel) performs these decisions; this module is what they
//! decide.
use crate::cli::StopCondition;
use crate::outcome::{classify_outcome, classify_spec, RequestResult};
use crate::report::StatisticList;
use vstd::prelude::*;

verus! {

/// A one-shot, fan-out stop notification. Firing is idempotent: a second
/// fire, or one with no time trigger active, changes nothing and is never a
/// fault.
pub struct CancelSignal {
    pub fired: bool,
}

impl CancelSignal {
    pub fn new() -> (s: Self)
        ensures
            !s.fired,
    {
        CancelSignal { fired: false }
    }

    /// Broadcast the stop event. A no-op when already fired.
    pub fn fire(&mut self)
        ensures
            final(self).fired,
    {
        self.fired = true;
    }

    pub fn is_fired(&self) -> (r: bool)
        ensures
            r == self.fired,
    {
        self.fired
    }
}

/// The shared gate every worker consults before one more request: the stop
/// condition, how many requests were issued, and the cancellation signal.
pub struct RunController {
    pub stop: StopCondition,
    pub issued: u64,
    pub cancel: CancelSignal,
}

/// The run's request budget; zero when the run is time-bounded instead.
pub open spec fn budget_of(c: RunController) -> u64 {
    match c.stop {
        StopCondition::RequestCount(n) => n,
        StopCondition::Duration(_) => 0u64,
    }
}

impl RunController {
    /// In budget mode the issued count never passes the budget.
    pub open spec fn wf(self) -> bool {
        self.stop is RequestCount ==> self.issued <= budget_of(self)
    }

    /// Whether one more request may begin: never after cancellation, and in
    /// budget mode only while the budget has room.
    pub open spec fn grant_spec(self) -> bool {
        &&& !self.cancel.fired
        &&& (self.stop is RequestCount ==> self.issued < budget_of(self))
    }

    /// The controller after one acquisition attempt: a granted attempt
    /// counts, and the attempt that takes the last budgeted slot fires the
    /// signal; a denied attempt changes nothing.
    pub open spec fn step_spec(self) -> RunController {
        if self.grant_spec() {
            RunController {
                stop: self.stop,
                issued: (self.issued + 1) as u64,
                cancel: CancelSignal {
                    fired: self.stop is RequestCount && self.issued + 1 == budget_of(self),
                },
            }
        } else {
            self
        }
    }

    pub fn new(stop: StopCondition) -> (c: Self)
        ensures
            c.wf(),
            c.stop == stop,
            c.issued == 0,
            !c.cancel.fired,
    {
        RunController { stop, issued: 0, cancel: CancelSignal::new() }
    }

    /// Ask to begin one more request. Checking cancellation wins over
    /// issuing, so stopping never admits an unbounded tail of new requests;
    /// in budget mode no caller can push `issued` past the budget, and the
    /// caller granted the last slot - and only that one - fires the signal.
    pub fn try_begin_request(&mut self) -> (granted: bool)
        requires
            old(self).wf(),
            old(self).issued < u64::MAX,
        ensures
            final(self).wf(),
            granted == old(self).grant_spec(),
            *final(self) == old(self).step_spec(),
    {
        if self.cancel.is_fired() {
            return false;
        }
        match self.stop {
            StopCondition::RequestCount(n) => {
                if self.issued < n {
                    self.issued = self.issued + 1;
                    if self.issued == n {
                        self.cancel.fire();
                    }
                    true
                } else {
                    false
                }
            },
            StopCondition::Duration(_) => {
                self.issued = self.issued + 1;
                true
            },
        }
    }

    /// The driver's deadline tick: broadcast the stop event. Idempotent.
    pub fn on_deadline(&mut self)
        ensures
            final(self).stop == old(self).stop,
            final(self).issued == old(self).issued,
            final(self).cancel.fired,
            final(self).wf() == old(self).wf(),
    {
        self.cancel.fire();
    }

    /// Whether workers should stop.
    pub fn is_cancelled(&self) -> (r: bool)
        ensures
            r == self.cancel.fired,
    {
        self.cancel.is_fired()
    }
}

/// The controller after `k` acquisition attempts, in whatever interleaving:
/// attempts are serialized by the shared gate, so only their number matters.
pub open spec fn run_attempts(c: RunController, k: nat) -> RunController
    decreases k,
{
    if k == 0 {
        c
    } else {
        run_attempts(c, (k - 1) as nat).step_spec()
    }
}

/// A request budget is spent exactly. From a fresh controller with budget
/// `n`, any `k` acquisition attempts - however the workers interleave - grant
/// exactly `min(k, n)` requests, never more than `n`; and as soon as `k`
/// reaches `n`, the cancellation signal has fired, by the hand of the worker
/// that took the last slot.
pub proof fn lemma_budget_exact(c: RunController, k: nat)
    requires
        c.stop is RequestCount,
        c.issued == 0,
        !c.cancel.fired,
    ensures
        run_attempts(c, k).issued == if k <= budget_of(c) {
            k as int
        } else {
            budget_of(c) as int
        },
        run_attempts(c, k).issued <= budget_of(c),
        run_attempts(c, k).cancel.fired == (budget_of(c) > 0 && k >= budget_of(c)),
        run_attempts(c, k).stop == c.stop,
    decreases k,
{
    if k > 0 {
        lemma_budget_exact(c, (k - 1) as nat);
    }
}

/// Record the outcome of one attempt: classify what the transport reported
/// and feed it to the shared accumulator. Per-request failures become data
/// here; they never propagate as faults.
pub fn statistic(list: &mut StatisticList, time_cost_ns: u64, result: RequestResult)
    requires
        old(list).acc.wf(),
        old(list).acc.total_issued < u64::MAX,
    ensures
        final(list).acc.wf(),
        final(list).acc.recorded@ == old(list).acc.recorded@.push(
            classify_spec(time_cost_ns, result@),
        ),
        final(list).acc.total_issued == old(list).acc.total_issued + 1,
        final(list).acc.histogram.sub_bucket_bits == old(list).acc.histogram.sub_bucket_bits,
        final(list).cli == old(list).cli,
{
    let o = classify_outcome(time_cost_ns, result);
    list.acc.record(o);
}

/// What the driver sends: a POST with the form content type when a body was
/// given, a bare GET otherwise.
pub fn plan_request(has_body: bool) -> (r: (String, Option<String>))
    ensures
        has_body ==> r.0@ == "POST"@ && (r.1 matches Some(ct) && ct@
            == "application/x-www-form-urlencoded"@),
        !has_body ==> r.0@ == "GET"@ && r.1 is None,
{
    if has_body {
        ("POST".to_owned(), Some("application/x-www-form-urlencoded".to_owned()))
    } else {
        ("GET".to_owned(), None)
    }
}

} // verus!
