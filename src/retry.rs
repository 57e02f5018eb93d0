//! The retry rules of a handoff. The sender and the receiver run their
//! socket calls in a loop; after each failed call they ask these rules
//! whether to sleep and try again or to give up.
use vstd::prelude::*;

verus! {

/// Retries while the peer is not ready: connects that find no socket yet,
/// and accepts that find no connection yet.
pub const MAX_RETRY: usize = 5;

/// Milliseconds between two of those retries.
pub const RETRY_INTERVAL_MS: u64 = 1000;

/// Polls of a non-blocking call that has not completed, the failing one
/// included.
pub const MAX_NONBLOCKING_POLLS: usize = 20;

/// Milliseconds between two polls.
pub const NONBLOCKING_POLL_INTERVAL_MS: u64 = 500;

/// An OS error code, as far as the retry rules tell them apart.
#[derive(Clone, Copy, Debug, PartialEq, Eq, Structural)]
pub enum OsErrorKind {
    /// `ENOENT`: the socket file does not exist yet.
    NotFound,
    /// `ECONNREFUSED`: nobody listens on the socket yet.
    ConnectionRefused,
    /// `EACCES`: the socket's permissions are not set yet.
    PermissionDenied,
    /// `EINPROGRESS`: a non-blocking connect has not completed.
    InProgress,
    /// `EAGAIN`: the call would block.
    WouldBlock,
    /// Any other error.
    Other,
}

/// What to do after a failed call.
#[derive(Clone, Copy, Debug, PartialEq, Eq, Structural)]
pub enum Step {
    /// Sleep this many milliseconds, then make the call again.
    RetryAfter(u64),
    /// Stop and report the error.
    GiveUp,
}

/// The errors that mean the receiver is not ready for a connect yet.
pub open spec fn is_not_ready(e: OsErrorKind) -> bool {
    e == OsErrorKind::NotFound || e == OsErrorKind::ConnectionRefused || e
        == OsErrorKind::PermissionDenied
}

/// The counters of one send: connect retries, and polls of the
/// non-blocking call under way.
#[derive(Clone, Copy, Debug, PartialEq, Eq, Structural)]
pub struct SendRetry {
    pub retried: usize,
    pub polls: usize,
}

/// One poll more, or the end of polling.
pub open spec fn poll_spec(s: SendRetry) -> (SendRetry, Step) {
    if s.polls + 1 >= MAX_NONBLOCKING_POLLS {
        (s, Step::GiveUp)
    } else {
        (SendRetry { polls: (s.polls + 1) as usize, ..s }, Step::RetryAfter(NONBLOCKING_POLL_INTERVAL_MS))
    }
}

/// The rule for a failed connect.
pub open spec fn connect_spec(s: SendRetry, e: OsErrorKind) -> (SendRetry, Step) {
    if is_not_ready(e) {
        if s.retried + 1 > MAX_RETRY {
            (s, Step::GiveUp)
        } else {
            (SendRetry { retried: (s.retried + 1) as usize, ..s }, Step::RetryAfter(RETRY_INTERVAL_MS))
        }
    } else if e == OsErrorKind::InProgress {
        poll_spec(s)
    } else {
        (s, Step::GiveUp)
    }
}

/// The rule for a failed send on a connected socket.
pub open spec fn send_spec(s: SendRetry, e: OsErrorKind) -> (SendRetry, Step) {
    if e == OsErrorKind::WouldBlock {
        poll_spec(s)
    } else {
        (s, Step::GiveUp)
    }
}

impl SendRetry {
    /// Counters for a new send.
    pub fn new() -> (r: Self)
        ensures
            r.retried == 0,
            r.polls == 0,
    {
        SendRetry { retried: 0, polls: 0 }
    }

    fn poll(&mut self) -> (r: Step)
        ensures
            (*final(self), r) == poll_spec(*old(self)),
    {
        if self.polls >= MAX_NONBLOCKING_POLLS - 1 {
            Step::GiveUp
        } else {
            self.polls = self.polls + 1;
            Step::RetryAfter(NONBLOCKING_POLL_INTERVAL_MS)
        }
    }

    /// Decides what follows a failed connect.
    pub fn on_connect_error(&mut self, e: OsErrorKind) -> (r: Step)
        ensures
            (*final(self), r) == connect_spec(*old(self), e),
    {
        match e {
            OsErrorKind::NotFound | OsErrorKind::ConnectionRefused
            | OsErrorKind::PermissionDenied => {
                if self.retried >= MAX_RETRY {
                    Step::GiveUp
                } else {
                    self.retried = self.retried + 1;
                    Step::RetryAfter(RETRY_INTERVAL_MS)
                }
            },
            OsErrorKind::InProgress => self.poll(),
            _ => Step::GiveUp,
        }
    }

    /// Marks the connect as done: the send gets a poll budget of its own.
    pub fn on_connected(&mut self)
        ensures
            final(self).retried == old(self).retried,
            final(self).polls == 0,
    {
        self.polls = 0;
    }

    /// Decides what follows a failed send.
    pub fn on_send_error(&mut self, e: OsErrorKind) -> (r: Step)
        ensures
            (*final(self), r) == send_spec(*old(self), e),
    {
        match e {
            OsErrorKind::WouldBlock => self.poll(),
            _ => Step::GiveUp,
        }
    }
}

/// The counter of the receiver's accepts.
#[derive(Clone, Copy, Debug, PartialEq, Eq, Structural)]
pub struct AcceptRetry {
    pub retried: usize,
}

/// The rule for a failed accept.
pub open spec fn accept_spec(s: AcceptRetry, e: OsErrorKind) -> (AcceptRetry, Step) {
    if e == OsErrorKind::WouldBlock && s.retried < MAX_RETRY {
        (AcceptRetry { retried: (s.retried + 1) as usize }, Step::RetryAfter(RETRY_INTERVAL_MS))
    } else {
        (s, Step::GiveUp)
    }
}

impl AcceptRetry {
    /// The counter for a new receive.
    pub fn new() -> (r: Self)
        ensures
            r.retried == 0,
    {
        AcceptRetry { retried: 0 }
    }

    /// Decides what follows a failed accept.
    pub fn on_accept_error(&mut self, e: OsErrorKind) -> (r: Step)
        ensures
            (*final(self), r) == accept_spec(*old(self), e),
    {
        match e {
            OsErrorKind::WouldBlock => {
                if self.retried >= MAX_RETRY {
                    Step::GiveUp
                } else {
                    self.retried = self.retried + 1;
                    Step::RetryAfter(RETRY_INTERVAL_MS)
                }
            },
            _ => Step::GiveUp,
        }
    }
}

/// The steps the rules give for a run of failed connects, one per error.
pub open spec fn connect_trace(s: SendRetry, errs: Seq<OsErrorKind>) -> Seq<Step>
    decreases errs.len(),
{
    if errs.len() == 0 {
        Seq::empty()
    } else {
        let next = connect_spec(s, errs[0]);
        seq![next.1] + connect_trace(next.0, errs.drop_first())
    }
}

/// The steps the rules give for a run of failed accepts, one per error.
pub open spec fn accept_trace(s: AcceptRetry, errs: Seq<OsErrorKind>) -> Seq<Step>
    decreases errs.len(),
{
    if errs.len() == 0 {
        Seq::empty()
    } else {
        let next = accept_spec(s, errs[0]);
        seq![next.1] + accept_trace(next.0, errs.drop_first())
    }
}

/// The time spent sleeping along a run of steps.
pub open spec fn total_wait_ms(steps: Seq<Step>) -> int
    decreases steps.len(),
{
    if steps.len() == 0 {
        0
    } else {
        (match steps[0] {
            Step::RetryAfter(ms) => ms as int,
            Step::GiveUp => 0,
        }) + total_wait_ms(steps.drop_first())
    }
}

/// `n` retries after `ms` milliseconds, then giving up.
pub open spec fn retries_then_give_up(n: nat, ms: u64) -> Seq<Step> {
    Seq::new(n, |i: int| Step::RetryAfter(ms)).push(Step::GiveUp)
}

proof fn lemma_retries_shape(n: nat, ms: u64)
    ensures
        n > 0 ==> retries_then_give_up(n, ms)[0] == Step::RetryAfter(ms),
        n > 0 ==> retries_then_give_up(n, ms).drop_first() == retries_then_give_up(
            (n - 1) as nat,
            ms,
        ),
        n == 0 ==> retries_then_give_up(n, ms) == seq![Step::GiveUp],
        n == 0 ==> retries_then_give_up(n, ms).drop_first() == Seq::<Step>::empty(),
        retries_then_give_up(n, ms) == seq![retries_then_give_up(n, ms)[0]] + retries_then_give_up(
            n,
            ms,
        ).drop_first(),
{
    let t = retries_then_give_up(n, ms);
    if n > 0 {
        assert(t.drop_first() =~= retries_then_give_up((n - 1) as nat, ms));
    } else {
        assert(t =~= seq![Step::GiveUp]);
        assert(t.drop_first() =~= Seq::<Step>::empty());
    }
    assert(t =~= seq![t[0]] + t.drop_first());
}

proof fn lemma_retries_wait(n: nat, ms: u64)
    ensures
        total_wait_ms(retries_then_give_up(n, ms)) == n * ms,
    decreases n,
{
    let t = retries_then_give_up(n, ms);
    lemma_retries_shape(n, ms);
    if n > 0 {
        lemma_retries_wait((n - 1) as nat, ms);
        assert(n * ms == ms + (n - 1) * ms) by (nonlinear_arith);
    } else {
        assert(total_wait_ms(t.drop_first()) == 0);
    }
}

proof fn lemma_connect_run(s: SendRetry, errs: Seq<OsErrorKind>)
    requires
        s.retried <= MAX_RETRY,
        errs.len() == MAX_RETRY + 1 - s.retried,
        forall|i: int| 0 <= i < errs.len() ==> is_not_ready(#[trigger] errs[i]),
    ensures
        connect_trace(s, errs) == retries_then_give_up((errs.len() - 1) as nat, RETRY_INTERVAL_MS),
    decreases errs.len(),
{
    let rest = errs.drop_first();
    assert(is_not_ready(errs[0]));
    if s.retried < MAX_RETRY {
        assert forall|i: int| 0 <= i < rest.len() implies is_not_ready(#[trigger] rest[i]) by {
            assert(rest[i] == errs[i + 1]);
        }
        lemma_connect_run(connect_spec(s, errs[0]).0, rest);
    } else {
        assert(rest =~= Seq::<OsErrorKind>::empty());
        assert(connect_trace(connect_spec(s, errs[0]).0, rest) == Seq::<Step>::empty());
    }
    lemma_retries_shape((errs.len() - 1) as nat, RETRY_INTERVAL_MS);
}

proof fn lemma_accept_run(s: AcceptRetry, errs: Seq<OsErrorKind>)
    requires
        s.retried <= MAX_RETRY,
        errs.len() == MAX_RETRY + 1 - s.retried,
        forall|i: int| 0 <= i < errs.len() ==> #[trigger] errs[i] == OsErrorKind::WouldBlock,
    ensures
        accept_trace(s, errs) == retries_then_give_up((errs.len() - 1) as nat, RETRY_INTERVAL_MS),
    decreases errs.len(),
{
    let rest = errs.drop_first();
    assert(errs[0] == OsErrorKind::WouldBlock);
    if s.retried < MAX_RETRY {
        assert forall|i: int| 0 <= i < rest.len() implies #[trigger] rest[i]
            == OsErrorKind::WouldBlock by {
            assert(rest[i] == errs[i + 1]);
        }
        lemma_accept_run(accept_spec(s, errs[0]).0, rest);
    } else {
        assert(rest =~= Seq::<OsErrorKind>::empty());
        assert(accept_trace(accept_spec(s, errs[0]).0, rest) == Seq::<Step>::empty());
    }
    lemma_retries_shape((errs.len() - 1) as nat, RETRY_INTERVAL_MS);
}

proof fn lemma_poll_run(s: SendRetry, errs: Seq<OsErrorKind>)
    requires
        s.polls < MAX_NONBLOCKING_POLLS,
        errs.len() == MAX_NONBLOCKING_POLLS - s.polls,
        forall|i: int| 0 <= i < errs.len() ==> #[trigger] errs[i] == OsErrorKind::InProgress,
    ensures
        connect_trace(s, errs) == retries_then_give_up(
            (errs.len() - 1) as nat,
            NONBLOCKING_POLL_INTERVAL_MS,
        ),
    decreases errs.len(),
{
    let rest = errs.drop_first();
    assert(errs[0] == OsErrorKind::InProgress);
    if s.polls + 1 < MAX_NONBLOCKING_POLLS {
        assert forall|i: int| 0 <= i < rest.len() implies #[trigger] rest[i]
            == OsErrorKind::InProgress by {
            assert(rest[i] == errs[i + 1]);
        }
        lemma_poll_run(connect_spec(s, errs[0]).0, rest);
    } else {
        assert(rest =~= Seq::<OsErrorKind>::empty());
        assert(connect_trace(connect_spec(s, errs[0]).0, rest) == Seq::<Step>::empty());
    }
    lemma_retries_shape((errs.len() - 1) as nat, NONBLOCKING_POLL_INTERVAL_MS);
}

/// A connect that stays in progress is polled `MAX_NONBLOCKING_POLLS - 1`
/// times, `NONBLOCKING_POLL_INTERVAL_MS` apart, and given up on the poll
/// after that.
pub proof fn lemma_poll_ceiling(errs: Seq<OsErrorKind>)
    requires
        errs.len() == MAX_NONBLOCKING_POLLS,
        forall|i: int| 0 <= i < errs.len() ==> #[trigger] errs[i] == OsErrorKind::InProgress,
    ensures
        connect_trace(SendRetry { retried: 0, polls: 0 }, errs) == retries_then_give_up(
            (MAX_NONBLOCKING_POLLS - 1) as nat,
            NONBLOCKING_POLL_INTERVAL_MS,
        ),
{
    lemma_poll_run(SendRetry { retried: 0, polls: 0 }, errs);
}

/// A sender whose connects keep finding the receiver not ready retries
/// exactly `MAX_RETRY` times, `RETRY_INTERVAL_MS` apart, and gives up on the
/// next failure: `MAX_RETRY * RETRY_INTERVAL_MS` milliseconds in all.
pub proof fn lemma_connect_ceiling(errs: Seq<OsErrorKind>)
    requires
        errs.len() == MAX_RETRY + 1,
        forall|i: int| 0 <= i < errs.len() ==> is_not_ready(#[trigger] errs[i]),
    ensures
        connect_trace(SendRetry { retried: 0, polls: 0 }, errs) == retries_then_give_up(
            MAX_RETRY as nat,
            RETRY_INTERVAL_MS,
        ),
        total_wait_ms(connect_trace(SendRetry { retried: 0, polls: 0 }, errs)) == MAX_RETRY
            * RETRY_INTERVAL_MS,
{
    lemma_connect_run(SendRetry { retried: 0, polls: 0 }, errs);
    lemma_retries_wait(MAX_RETRY as nat, RETRY_INTERVAL_MS);
}

/// A receiver that finds no connection to accept retries exactly
/// `MAX_RETRY` times, `RETRY_INTERVAL_MS` apart, and gives up on the next
/// failure.
pub proof fn lemma_accept_ceiling(errs: Seq<OsErrorKind>)
    requires
        errs.len() == MAX_RETRY + 1,
        forall|i: int| 0 <= i < errs.len() ==> #[trigger] errs[i] == OsErrorKind::WouldBlock,
    ensures
        accept_trace(AcceptRetry { retried: 0 }, errs) == retries_then_give_up(
            MAX_RETRY as nat,
            RETRY_INTERVAL_MS,
        ),
        total_wait_ms(accept_trace(AcceptRetry { retried: 0 }, errs)) == MAX_RETRY
            * RETRY_INTERVAL_MS,
{
    lemma_accept_run(AcceptRetry { retried: 0 }, errs);
    lemma_retries_wait(MAX_RETRY as nat, RETRY_INTERVAL_MS);
}

} // verus!
