//! The per-connection protocol state machine.
//!
//! A connection session multiplexes three event sources — downstream count
//! updates from its delivery channel, inbound client frames, and the
//! idle/max-life timer — and resolves exactly one of them per iteration,
//! first-ready wins. The unverified transport loop owns the sockets and
//! timers; it classifies whatever became ready into an [`Event`], feeds it
//! to [`Session::step`], and performs the returned [`Action`]. Every path
//! out of the active state runs through draining, whose single job is to
//! close the registration handle, so the registry never leaks a stale
//! subscriber however the connection ended.

use vstd::prelude::*;

verus! {

/// Idle/max-life limit for one session, in seconds: a session that sees no
/// ping or pong for this long self-terminates.
pub const MAX_LIFE_SECS: u64 = 600;

/// How long an outbound send may take, in seconds, before the connection is
/// treated as broken.
pub const SEND_TIMEOUT_SECS: u64 = 5;

/// The byte `?`: a key taken from the upgrade request is truncated at the
/// first occurrence.
pub const QUERY_BYTE: u8 = 63;

/// The byte `/`: a key of the declared origin continues with it.
pub const SLASH_BYTE: u8 = 47;

/// Where a session stands in its life cycle.
#[derive(PartialEq, Eq, Structural, Clone, Copy, Debug)]
pub enum SessionState {
    /// Transport handshake in progress — an external concern.
    Connecting,
    /// Key extracted, registration requested, no handle yet.
    Registering,
    /// The multiplexed loop: counts out, frames in, timer armed.
    Active,
    /// On the way out; the handle must be closed.
    Draining,
    /// Terminal.
    Closed,
}

/// What kind of frame the client sent, as the transport classified it.
#[derive(PartialEq, Eq, Structural, Clone, Copy, Debug)]
pub enum FrameKind {
    /// The client said goodbye.
    CloseFrame,
    /// Liveness only: extends the idle deadline.
    Ping,
    /// Liveness only: extends the idle deadline.
    Pong,
    /// Accepted and ignored — this service only pushes counts.
    Text,
    /// Accepted and ignored as well.
    Binary,
    /// An anomaly: logged, never fatal.
    Unknown,
}

/// How an outbound send ended.
#[derive(PartialEq, Eq, Structural, Clone, Copy, Debug)]
pub enum SendOutcome {
    /// The frame went out within the send timeout.
    Delivered,
    /// The send timeout fired first: the connection is treated as broken.
    TimedOut,
    /// The transport reported an error.
    Failed,
}

/// One resolved event: whichever of the session's sources became ready
/// first, or the outcome the transport reports back after a send.
#[derive(PartialEq, Eq, Structural, Clone, Copy, Debug)]
pub enum Event {
    /// The transport handshake finished.
    Connected,
    /// Registration succeeded and the session owns its handle.
    Registered,
    /// Registration failed: the control queue was closed or saturated. The
    /// session never joined the directory and closes without draining.
    RegisterFailed,
    /// The delivery channel had a pending occupancy count.
    Update { value: u64 },
    /// The delivery channel reported nothing to hand over.
    UpdateIdle,
    /// The client sent a frame of the given kind.
    Frame { kind: FrameKind },
    /// The inbound stream ended: the client is gone.
    StreamEnded,
    /// The transport failed while reading.
    ReadError,
    /// A previously requested send finished with this outcome.
    Sent { outcome: SendOutcome },
    /// The idle/max-life timer fired.
    TimerFired,
}

/// What the transport loop must do next.
#[derive(PartialEq, Eq, Structural, Clone, Copy, Debug)]
pub enum Action {
    /// Nothing: loop and race the sources again.
    Stay,
    /// Encode `value` in decimal and send it to the client, under the send
    /// timeout; report the outcome back as [`Event::Sent`].
    Send { value: u64 },
    /// A ping or pong arrived: push the idle deadline out by the max-life
    /// duration from now.
    ExtendDeadline,
    /// Close the registration handle; the session is over.
    CloseHandle,
}

/// The state a session moves to on an event. Only what the table below says
/// leaves a state: notably, anything at all moves draining to closed, and
/// nothing leaves closed.
pub open spec fn spec_next_state(s: SessionState, e: Event) -> SessionState {
    match s {
        SessionState::Connecting => match e {
            Event::Connected => SessionState::Registering,
            _ => SessionState::Connecting,
        },
        SessionState::Registering => match e {
            Event::Registered => SessionState::Active,
            Event::RegisterFailed => SessionState::Closed,
            _ => SessionState::Registering,
        },
        SessionState::Active => match e {
            Event::Frame { kind: FrameKind::CloseFrame } => SessionState::Draining,
            Event::StreamEnded => SessionState::Draining,
            Event::ReadError => SessionState::Draining,
            Event::TimerFired => SessionState::Draining,
            Event::Sent { outcome: SendOutcome::TimedOut } => SessionState::Draining,
            Event::Sent { outcome: SendOutcome::Failed } => SessionState::Draining,
            _ => SessionState::Active,
        },
        SessionState::Draining => SessionState::Closed,
        SessionState::Closed => SessionState::Closed,
    }
}

/// The action a session asks of the transport on an event.
pub open spec fn spec_action(s: SessionState, e: Event) -> Action {
    match s {
        SessionState::Active => match e {
            Event::Update { value } => Action::Send { value },
            Event::Frame { kind: FrameKind::Ping } => Action::ExtendDeadline,
            Event::Frame { kind: FrameKind::Pong } => Action::ExtendDeadline,
            _ => Action::Stay,
        },
        SessionState::Draining => Action::CloseHandle,
        _ => Action::Stay,
    }
}

/// Whether the event counts as an idle/max-life timeout of a live session.
pub open spec fn spec_counts_timeout(s: SessionState, e: Event) -> bool {
    s is Active && e is TimerFired
}

/// Whether the event counts as a delivered outbound update.
pub open spec fn spec_counts_sent_ok(s: SessionState, e: Event) -> bool {
    s is Active && e matches Event::Sent { outcome: SendOutcome::Delivered }
}

/// Whether the event counts as a failed or timed-out outbound update.
pub open spec fn spec_counts_send_failure(s: SessionState, e: Event) -> bool {
    s is Active && (e matches Event::Sent { outcome: SendOutcome::TimedOut } || e matches
        Event::Sent { outcome: SendOutcome::Failed })
}

/// A counter bumped by one, stopping at the top instead of wrapping.
pub open spec fn spec_bump(c: u64, hit: bool) -> u64 {
    if hit && c < u64::MAX {
        (c + 1) as u64
    } else {
        c
    }
}

/// One connection session: its protocol state and the per-session tallies
/// the metrics sink reads off it.
pub struct Session {
    /// Where the session stands.
    pub state: SessionState,
    /// Idle/max-life timer expiries observed (0 or 1: the first one drains).
    pub timeouts: u64,
    /// Outbound updates that reached the client.
    pub sent_ok: u64,
    /// Outbound updates lost to a send timeout or transport error.
    pub send_failures: u64,
}

impl Session {
    /// A session on a connection whose handshake is still in progress.
    pub fn new() -> (s: Session)
        ensures
            s.state is Connecting,
            s.timeouts == 0,
            s.sent_ok == 0,
            s.send_failures == 0,
    {
        Session { state: SessionState::Connecting, timeouts: 0, sent_ok: 0, send_failures: 0 }
    }

    /// Resolve one event: move to the next state, tally what the event
    /// means, and tell the transport what to do. Exactly one event is
    /// resolved per loop iteration; a losing source's partial progress is
    /// never carried over, so nothing else changes here.
    pub fn step(&mut self, e: Event) -> (a: Action)
        ensures
            final(self).state == spec_next_state(old(self).state, e),
            a == spec_action(old(self).state, e),
            final(self).timeouts == spec_bump(
                old(self).timeouts,
                spec_counts_timeout(old(self).state, e),
            ),
            final(self).sent_ok == spec_bump(
                old(self).sent_ok,
                spec_counts_sent_ok(old(self).state, e),
            ),
            final(self).send_failures == spec_bump(
                old(self).send_failures,
                spec_counts_send_failure(old(self).state, e),
            ),
    {
        let mut action = Action::Stay;
        match self.state {
            SessionState::Connecting => {
                if let Event::Connected = e {
                    self.state = SessionState::Registering;
                }
            },
            SessionState::Registering => {
                if let Event::Registered = e {
                    self.state = SessionState::Active;
                } else if let Event::RegisterFailed = e {
                    self.state = SessionState::Closed;
                }
            },
            SessionState::Active => {
                match e {
                    Event::Update { value } => {
                        action = Action::Send { value };
                    },
                    Event::Frame { kind } => {
                        match kind {
                            FrameKind::CloseFrame => {
                                self.state = SessionState::Draining;
                            },
                            FrameKind::Ping => {
                                action = Action::ExtendDeadline;
                            },
                            FrameKind::Pong => {
                                action = Action::ExtendDeadline;
                            },
                            _ => {},
                        }
                    },
                    Event::StreamEnded => {
                        self.state = SessionState::Draining;
                    },
                    Event::ReadError => {
                        self.state = SessionState::Draining;
                    },
                    Event::TimerFired => {
                        self.state = SessionState::Draining;
                        if self.timeouts < u64::MAX {
                            self.timeouts = self.timeouts + 1;
                        }
                    },
                    Event::Sent { outcome } => {
                        match outcome {
                            SendOutcome::Delivered => {
                                if self.sent_ok < u64::MAX {
                                    self.sent_ok = self.sent_ok + 1;
                                }
                            },
                            SendOutcome::TimedOut => {
                                self.state = SessionState::Draining;
                                if self.send_failures < u64::MAX {
                                    self.send_failures = self.send_failures + 1;
                                }
                            },
                            SendOutcome::Failed => {
                                self.state = SessionState::Draining;
                                if self.send_failures < u64::MAX {
                                    self.send_failures = self.send_failures + 1;
                                }
                            },
                        }
                    },
                    _ => {},
                }
            },
            SessionState::Draining => {
                self.state = SessionState::Closed;
                action = Action::CloseHandle;
            },
            SessionState::Closed => {},
        }
        action
    }
}

// ---------------------------------------------------------------------------
// Laws of the session machine.
// ---------------------------------------------------------------------------

/// A session that hears nothing but its timer self-terminates: the timer
/// drains it, counting one timeout, and the very next iteration closes it
/// while ordering the handle closed — no close frame needed.
pub proof fn lemma_timeout_self_terminates(e: Event)
    ensures
        spec_next_state(SessionState::Active, Event::TimerFired) is Draining,
        spec_counts_timeout(SessionState::Active, Event::TimerFired),
        spec_next_state(SessionState::Draining, e) is Closed,
        spec_action(SessionState::Draining, e) is CloseHandle,
{
}

/// Draining always closes the handle, whatever path led there, and a closed
/// session never acts again: the handle is closed exactly once.
pub proof fn lemma_drain_closes_once(e: Event, e2: Event)
    ensures
        spec_action(SessionState::Draining, e) is CloseHandle,
        spec_next_state(SessionState::Draining, e) is Closed,
        spec_next_state(SessionState::Closed, e2) is Closed,
        spec_action(SessionState::Closed, e2) is Stay,
{
}

/// An active session only ever stays active or starts draining; it can
/// never skip draining, so it can never skip closing its handle.
pub proof fn lemma_active_never_skips_drain(e: Event)
    ensures
        spec_next_state(SessionState::Active, e) is Active || spec_next_state(
            SessionState::Active,
            e,
        ) is Draining,
{
}

// ---------------------------------------------------------------------------
// Key extraction for the registering state.
// ---------------------------------------------------------------------------

/// The target key as taken from the upgrade request: everything before the
/// first `?`, or the whole value when there is none.
pub fn extract_key(raw: &Vec<u8>) -> (key: Vec<u8>)
    ensures
        key@.len() <= raw@.len(),
        key@ == raw@.take(key@.len() as int),
        forall|i: int| 0 <= i < key@.len() ==> raw@[i] != QUERY_BYTE,
        key@.len() < raw@.len() ==> raw@[key@.len() as int] == QUERY_BYTE,
{
    let mut i: usize = 0;
    while i < raw.len() && raw[i] != QUERY_BYTE
        invariant
            i <= raw@.len(),
            forall|j: int| 0 <= j < i ==> raw@[j] != QUERY_BYTE,
        decreases raw@.len() - i,
    {
        i = i + 1;
    }
    let mut key: Vec<u8> = Vec::new();
    let mut j: usize = 0;
    while j < i
        invariant
            j <= i,
            i <= raw@.len(),
            forall|j2: int| 0 <= j2 < i ==> raw@[j2] != QUERY_BYTE,
            i < raw@.len() ==> raw@[i as int] == QUERY_BYTE,
            key@ == raw@.take(j as int),
        decreases i - j,
    {
        key.push(raw[j]);
        proof {
            assert(key@ =~= raw@.take(j + 1 as int));
        }
        j = j + 1;
    }
    key
}

/// Whether the key names a page of the declared origin: the origin followed
/// by a slash. A mismatch is logged as a warning but the connection
/// proceeds; this check decides the warning only.
pub fn origin_matches(key: &Vec<u8>, origin: &Vec<u8>) -> (r: bool)
    ensures
        r <==> (key@.len() > origin@.len() && key@.take(origin@.len() as int) == origin@
            && key@[origin@.len() as int] == SLASH_BYTE),
{
    if key.len() <= origin.len() {
        return false;
    }
    if key[origin.len()] != SLASH_BYTE {
        return false;
    }
    let mut i: usize = 0;
    while i < origin.len()
        invariant
            i <= origin@.len(),
            origin@.len() < key@.len(),
            key@[origin@.len() as int] == SLASH_BYTE,
            forall|j: int| 0 <= j < i ==> key@[j] == origin@[j],
        decreases origin@.len() - i,
    {
        if key[i] != origin[i] {
            proof {
                assert(key@.take(origin@.len() as int)[i as int] != origin@[i as int]);
            }
            return false;
        }
        i = i + 1;
    }
    proof {
        assert(key@.take(origin@.len() as int) =~= origin@);
    }
    true
}

} // verus!
