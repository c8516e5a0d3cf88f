//! The decisions of the accept loop and of each connection: admission
//! control, accept backoff, shutdown draining, and what to do with the bytes
//! a connection has received.
use vstd::prelude::*;
use vstd::arithmetic::power2::{pow2, lemma2_to64_rest, lemma_pow2_strictly_increases, lemma_pow2_unfold};
use crate::request::{HttpRequest, ParseOutcome, RequestScan, outcome_matches, scan_request};

verus! {

/// The number of consecutive accept failures after which the listener gives up.
pub const MAX_ACCEPT_FAILURES: u32 = 64;

/// The default bound on concurrently served connections.
pub const MAX_CONNECTIONS: usize = 500;

/// What the accept loop does after a failed accept.
pub enum AcceptAction {
    /// Wait this many seconds, then accept again.
    Retry(u64),
    /// Stop accepting and report a fatal error.
    Fail,
}

/// The action taken on the `k`-th failed accept, counting from 1: a wait of
/// 2^(k-1) seconds, until the last allowed failure.
pub open spec fn backoff_action(k: nat) -> AcceptAction {
    if k >= MAX_ACCEPT_FAILURES {
        AcceptAction::Fail
    } else {
        AcceptAction::Retry(pow2((k - 1) as nat) as u64)
    }
}

pub enum Phase {
    Running,
    Draining,
    Stopped,
}

/// The server's shared control state: the permit pool, the count of failed
/// accepts (never reset), and the shutdown phase.
pub struct ServerState {
    capacity: usize,
    active: usize,
    failures: u32,
    phase: Phase,
}

pub struct ServerModel {
    pub capacity: nat,
    pub active: nat,
    pub failures: nat,
    pub phase: Phase,
}

impl View for ServerState {
    type V = ServerModel;

    closed spec fn view(&self) -> ServerModel {
        ServerModel {
            capacity: self.capacity as nat,
            active: self.active as nat,
            failures: self.failures as nat,
            phase: self.phase,
        }
    }
}

/// A consistent state: no more connections than permits, no failures past the
/// limit, and a stopped server serves nothing.
pub open spec fn model_wf(m: ServerModel) -> bool {
    &&& m.active <= m.capacity
    &&& m.failures <= MAX_ACCEPT_FAILURES
    &&& (m.phase == Phase::Stopped ==> m.active == 0)
}

/// Admitting a new connection: it takes a permit if the server is running and
/// one is free; otherwise it must wait.
pub open spec fn admission(m: ServerModel) -> (bool, ServerModel) {
    if m.phase == Phase::Running && m.active < m.capacity {
        (true, ServerModel { active: m.active + 1, ..m })
    } else {
        (false, m)
    }
}

/// A connection ending: its permit comes back, and a draining server with no
/// connection left is stopped.
pub open spec fn release(m: ServerModel) -> ServerModel {
    let active = (m.active - 1) as nat;
    ServerModel {
        active,
        phase: if m.phase == Phase::Draining && active == 0 { Phase::Stopped } else { m.phase },
        ..m
    }
}

/// Shutdown requested: no more admissions; stopped once no connection is left.
pub open spec fn shut_down(m: ServerModel) -> ServerModel {
    ServerModel {
        phase: if m.phase == Phase::Stopped || m.active == 0 { Phase::Stopped } else { Phase::Draining },
        ..m
    }
}

/// A failed accept: its action, and a state that counts it; on the last
/// allowed failure the server starts to shut down.
pub open spec fn accept_failed(m: ServerModel) -> (AcceptAction, ServerModel) {
    let k = m.failures + 1;
    if k >= MAX_ACCEPT_FAILURES {
        (AcceptAction::Fail, shut_down(ServerModel { failures: MAX_ACCEPT_FAILURES as nat, ..m }))
    } else {
        (backoff_action(k), ServerModel { failures: k, ..m })
    }
}

/// `m` after `k` connections have ended.
pub open spec fn release_times(m: ServerModel, k: nat) -> ServerModel
    decreases k,
{
    if k == 0 { m } else { release(release_times(m, (k - 1) as nat)) }
}

impl ServerState {
    pub open spec fn wf(&self) -> bool {
        model_wf(self@)
    }

    /// A running server with `capacity` permits, no connection and no failure.
    pub fn new(capacity: usize) -> (r: ServerState)
        ensures
            r.wf(),
            r@ == (ServerModel { capacity: capacity as nat, active: 0, failures: 0, phase: Phase::Running }),
    {
        ServerState { capacity, active: 0, failures: 0, phase: Phase::Running }
    }

    pub fn active(&self) -> (r: usize)
        ensures
            r == self@.active,
    {
        self.active
    }

    /// Takes a permit for a new connection if one may be had now.
    pub fn try_admit(&mut self) -> (r: bool)
        requires
            old(self).wf(),
        ensures
            final(self).wf(),
            (r, final(self)@) == admission(old(self)@),
    {
        match self.phase {
            Phase::Running => {
                if self.active < self.capacity {
                    self.active = self.active + 1;
                    return true;
                }
                false
            },
            _ => false,
        }
    }

    /// Returns the permit of a connection that has ended.
    pub fn release(&mut self)
        requires
            old(self).wf(),
            old(self)@.active > 0,
        ensures
            final(self).wf(),
            final(self)@ == release(old(self)@),
    {
        self.active = self.active - 1;
        match self.phase {
            Phase::Draining => {
                if self.active == 0 {
                    self.phase = Phase::Stopped;
                }
            },
            _ => {},
        }
    }

    /// Starts the shutdown.
    pub fn request_shutdown(&mut self)
        requires
            old(self).wf(),
        ensures
            final(self).wf(),
            final(self)@ == shut_down(old(self)@),
    {
        match self.phase {
            Phase::Stopped => {},
            _ => {
                if self.active == 0 {
                    self.phase = Phase::Stopped;
                } else {
                    self.phase = Phase::Draining;
                }
            },
        }
    }

    /// Whether connections should stop after their current request.
    pub fn is_shutdown(&self) -> (r: bool)
        ensures
            r == (self@.phase != Phase::Running),
    {
        match self.phase {
            Phase::Running => false,
            _ => true,
        }
    }

    /// Whether the shutdown has finished: every connection has ended.
    pub fn is_stopped(&self) -> (r: bool)
        ensures
            r == (self@.phase == Phase::Stopped),
    {
        match self.phase {
            Phase::Stopped => true,
            _ => false,
        }
    }

    /// Records a failed accept and says what to do next.
    pub fn on_accept_error(&mut self) -> (r: AcceptAction)
        requires
            old(self).wf(),
        ensures
            final(self).wf(),
            (r, final(self)@) == accept_failed(old(self)@),
    {
        if self.failures + 1 >= MAX_ACCEPT_FAILURES {
            self.failures = MAX_ACCEPT_FAILURES;
            self.request_shutdown();
            AcceptAction::Fail
        } else {
            let k = self.failures;
            let delay = retry_delay(k);
            self.failures = k + 1;
            AcceptAction::Retry(delay)
        }
    }
}

/// 2^k seconds, the wait after the (k+1)-th failed accept.
fn retry_delay(k: u32) -> (r: u64)
    requires
        k < 63,
    ensures
        r == pow2(k as nat),
{
    let mut d: u64 = 1;
    let mut i: u32 = 0;
    proof {
        vstd::arithmetic::power2::lemma2_to64();
    }
    while i < k
        invariant
            i <= k < 63,
            d == pow2(i as nat),
        decreases k - i,
    {
        proof {
            lemma_pow2_unfold((i + 1) as nat);
            lemma2_to64_rest();
            lemma_pow2_strictly_increases((i + 1) as nat, 63);
        }
        d = d * 2;
        i = i + 1;
    }
    d
}

/// What a connection does with the bytes it has received.
pub enum ConnAction {
    /// Serve this request, then drop the bytes it took.
    Handle(HttpRequest, usize),
    /// Read more bytes.
    ReadMore,
    /// Close the connection.
    Close,
}

/// Decides the next step of a connection from the bytes received so far and
/// whether the peer has closed its side: a complete request is served; an
/// incomplete one waits for more bytes unless the peer is gone; a malformed
/// one closes the connection.
pub fn next_action(buf: &[u8], eof: bool) -> (r: ConnAction)
    ensures
        match scan_request(buf@) {
            RequestScan::Complete { consumed, .. } => r matches ConnAction::Handle(_, n) && n == consumed,
            RequestScan::Incomplete => if eof { r is Close } else { r is ReadMore },
            RequestScan::Malformed => r is Close,
        },
        r matches ConnAction::Handle(req, n) ==> outcome_matches(ParseOutcome::Complete(req, n), scan_request(buf@)),
{
    match HttpRequest::parse(buf) {
        ParseOutcome::Complete(req, n) => ConnAction::Handle(req, n),
        ParseOutcome::Incomplete => if eof { ConnAction::Close } else { ConnAction::ReadMore },
        ParseOutcome::Malformed => ConnAction::Close,
    }
}


/// With every permit taken, a new connection is not admitted and nothing
/// changes; as soon as one connection ends, the next one is admitted.
pub proof fn lemma_admission_waits_for_release(m: ServerModel)
    requires
        model_wf(m),
        m.phase == Phase::Running,
        m.capacity > 0,
        m.active == m.capacity,
    ensures
        admission(m) == (false, m),
        admission(release(m)).0,
        admission(release(m)).1.active == m.capacity,
{
}

/// From a fresh server, `k` connections up to the capacity are all admitted.
pub proof fn lemma_admits_up_to_capacity(c: nat, k: nat)
    requires
        k <= c,
    ensures
        admit_times(ServerModel { capacity: c, active: 0, failures: 0, phase: Phase::Running }, k)
            == (true, ServerModel { capacity: c, active: k, failures: 0, phase: Phase::Running }),
    decreases k,
{
    if k > 0 {
        lemma_admits_up_to_capacity(c, (k - 1) as nat);
    }
}

/// Admitting `k` connections one after another: whether all were admitted,
/// and the state after.
pub open spec fn admit_times(m: ServerModel, k: nat) -> (bool, ServerModel)
    decreases k,
{
    if k == 0 {
        (true, m)
    } else {
        let prev = admit_times(m, (k - 1) as nat);
        let next = admission(prev.1);
        (prev.0 && next.0, next.1)
    }
}

/// Consecutive failed accepts wait twice as long each time, starting at one
/// second from a cold start.
pub proof fn lemma_backoff_doubles(m: ServerModel)
    requires
        model_wf(m),
        m.failures + 2 < MAX_ACCEPT_FAILURES,
    ensures
        accept_failed(m).0 matches AcceptAction::Retry(d1) && accept_failed(accept_failed(m).1).0 matches AcceptAction::Retry(d2)
            && d2 == 2 * d1,
        m.failures == 0 ==> accept_failed(m).0 == AcceptAction::Retry(1),
{
    let k = m.failures;
    vstd::arithmetic::power2::lemma2_to64();
    lemma2_to64_rest();
    lemma_pow2_unfold(k + 1);
    lemma_pow2_strictly_increases(k + 1, 63);
    lemma_pow2_strictly_increases(k, 63);
}

/// The failed accept that reaches the limit is fatal: the listener stops
/// accepting and the server begins to shut down.
pub proof fn lemma_backoff_gives_up(m: ServerModel)
    requires
        model_wf(m),
        m.failures + 1 >= MAX_ACCEPT_FAILURES,
    ensures
        accept_failed(m).0 == AcceptAction::Fail,
        accept_failed(m).1.phase != Phase::Running,
        !admission(accept_failed(m).1).0,
{
}

/// After shutdown is requested with `m.active` connections in flight, no
/// new connection is admitted, the running ones are told to stop, and the
/// server counts as stopped exactly when all of them have ended.
pub proof fn lemma_shutdown_drains(m: ServerModel, k: nat)
    requires
        model_wf(m),
        m.phase == Phase::Running,
        k <= m.active,
    ensures
        release_times(shut_down(m), k).active == m.active - k,
        release_times(shut_down(m), k).phase != Phase::Running,
        !admission(release_times(shut_down(m), k)).0,
        release_times(shut_down(m), k).phase == Phase::Stopped <==> k == m.active,
    decreases k,
{
    if k > 0 {
        lemma_shutdown_drains(m, (k - 1) as nat);
    }
}


/// The state after `k` failed accepts in a row.
pub open spec fn fail_times(m: ServerModel, k: nat) -> ServerModel
    decreases k,
{
    if k == 0 { m } else { accept_failed(fail_times(m, (k - 1) as nat)).1 }
}

proof fn lemma_fail_times_count(m: ServerModel, k: nat)
    requires
        model_wf(m),
        m.failures == 0,
        k < MAX_ACCEPT_FAILURES,
    ensures
        fail_times(m, k) == (ServerModel { failures: k, ..m }),
    decreases k,
{
    if k > 0 {
        lemma_fail_times_count(m, (k - 1) as nat);
    }
}

/// From a cold start, while accepts keep failing, the `k`-th failure waits
/// 2^(k-1) seconds for each `k` below the limit (1, 2, 4, ...), and the
/// failure that reaches the limit is fatal: the listener stops after exactly
/// that many attempts.
pub proof fn lemma_backoff_from_cold_start(m: ServerModel, k: nat)
    requires
        model_wf(m),
        m.failures == 0,
        1 <= k <= MAX_ACCEPT_FAILURES,
    ensures
        k < MAX_ACCEPT_FAILURES ==> accept_failed(fail_times(m, (k - 1) as nat)).0
            == AcceptAction::Retry(pow2((k - 1) as nat) as u64),
        k < MAX_ACCEPT_FAILURES ==> pow2((k - 1) as nat) < 0x8000_0000_0000_0000,
        k == MAX_ACCEPT_FAILURES ==> accept_failed(fail_times(m, (k - 1) as nat)).0 == AcceptAction::Fail,
        k == MAX_ACCEPT_FAILURES ==> fail_times(m, k).phase != Phase::Running,
{
    lemma_fail_times_count(m, (k - 1) as nat);
    lemma2_to64_rest();
    if k < MAX_ACCEPT_FAILURES {
        lemma_pow2_strictly_increases((k - 1) as nat, 63);
    }
}

} // verus!
