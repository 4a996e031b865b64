//! When to give a data channel up.
use vstd::prelude::*;

verus! {

/// How long a disconnected channel may come back on its own, in milliseconds.
pub const CHANNEL_DISCONNECT_GRACE_MS: u64 = 10_000;

/// What a peer connection says of itself.
#[derive(Debug, Clone, Copy, PartialEq, Eq, Structural)]
pub enum ChannelState {
    New,
    Connecting,
    Connected,
    Disconnected,
    Failed,
    Closed,
}

/// What to do about one observation.
#[derive(Debug, Clone, Copy, PartialEq, Eq)]
pub enum ChannelVerdict {
    /// The channel is fine, or has recovered.
    Healthy,
    /// Disconnected, but inside the grace window.
    Wait,
    /// Beyond saving, and why.
    Kill(&'static str),
}

pub enum VerdictView {
    Healthy,
    Wait,
    Kill(Seq<char>),
}

impl View for ChannelVerdict {
    type V = VerdictView;

    open spec fn view(&self) -> VerdictView {
        match *self {
            ChannelVerdict::Healthy => VerdictView::Healthy,
            ChannelVerdict::Wait => VerdictView::Wait,
            ChannelVerdict::Kill(reason) => VerdictView::Kill(reason@),
        }
    }
}

/// What an observation says: a failed or closed channel is beyond saving, a
/// disconnected one is once it stood that long, and any other is fine.
pub open spec fn judged(state: ChannelState, disconnected_for_ms: Option<u64>) -> VerdictView {
    match state {
        ChannelState::Failed => VerdictView::Kill("the data channel's ICE failed"@),
        ChannelState::Closed => VerdictView::Kill("the peer connection closed under the mount"@),
        ChannelState::Disconnected => if disconnected_for_ms matches Some(n) && n
            >= CHANNEL_DISCONNECT_GRACE_MS {
            VerdictView::Kill("the data channel stayed disconnected past the grace window"@)
        } else {
            VerdictView::Wait
        },
        _ => VerdictView::Healthy,
    }
}

/// Judges one observation: a connection's state, and how long a disconnect has
/// been standing.
#[must_use]
pub fn judge_channel(state: ChannelState, disconnected_for_ms: Option<u64>) -> (verdict:
    ChannelVerdict)
    ensures
        verdict@ == judged(state, disconnected_for_ms),
{
    match state {
        ChannelState::Failed => ChannelVerdict::Kill("the data channel's ICE failed"),
        ChannelState::Closed => ChannelVerdict::Kill("the peer connection closed under the mount"),
        ChannelState::Disconnected => match disconnected_for_ms {
            Some(elapsed) => {
                if elapsed >= CHANNEL_DISCONNECT_GRACE_MS {
                    ChannelVerdict::Kill(
                        "the data channel stayed disconnected past the grace window",
                    )
                } else {
                    ChannelVerdict::Wait
                }
            },
            None => ChannelVerdict::Wait,
        },
        _ => ChannelVerdict::Healthy,
    }
}

/// What a poll of a channel sees.
#[derive(Debug, Clone, Copy, PartialEq, Eq, Structural)]
pub enum Observed {
    /// The mount connection is already gone.
    MountClosed,
    /// The transport has dropped the session.
    Detached,
    /// The peer connection is in this state.
    State(ChannelState),
}

/// What to do after a poll.
#[derive(Debug, Clone, Copy, PartialEq, Eq)]
pub enum WatchStep {
    /// Poll again.
    Again,
    /// Stop watching: there is nothing left to watch.
    Stop,
    /// Close the mount with this reason, and stop watching.
    Close(&'static str),
}

pub enum WatchStepView {
    Again,
    Stop,
    Close(Seq<char>),
}

impl View for WatchStep {
    type V = WatchStepView;

    open spec fn view(&self) -> WatchStepView {
        match *self {
            WatchStep::Again => WatchStepView::Again,
            WatchStep::Stop => WatchStepView::Stop,
            WatchStep::Close(reason) => WatchStepView::Close(reason@),
        }
    }
}

/// A channel being watched: since when it has been disconnected, if it is.
#[derive(Debug, Clone, Copy, PartialEq, Eq)]
pub struct ChannelWatch {
    pub disconnected_since: Option<u64>,
}

/// How long a disconnect has been standing.
pub open spec fn standing(since: Option<u64>, now: u64) -> Option<u64> {
    match since {
        None => None,
        Some(s) => Some(
            if now < s {
                0
            } else {
                (now - s) as u64
            },
        ),
    }
}

/// What a poll leads to, and since when the channel is disconnected then.
pub open spec fn watched(since: Option<u64>, now: u64, observed: Observed) -> (
    WatchStepView,
    Option<u64>,
) {
    match observed {
        Observed::MountClosed => (WatchStepView::Stop, since),
        Observed::Detached => (WatchStepView::Close("data channel session detached"@), since),
        Observed::State(state) => match judged(state, standing(since, now)) {
            VerdictView::Healthy => (WatchStepView::Again, None),
            VerdictView::Wait => (
                WatchStepView::Again,
                Some(
                    match since {
                        Some(s) => s,
                        None => now,
                    },
                ),
            ),
            VerdictView::Kill(_) => (WatchStepView::Close("data channel died"@), since),
        },
    }
}

impl ChannelWatch {
    #[must_use]
    pub fn new() -> (out: Self)
        ensures
            out.disconnected_since is None,
    {
        ChannelWatch { disconnected_since: None }
    }

    /// Takes one poll, made at `now` in milliseconds.
    pub fn poll(&mut self, now: u64, observed: Observed) -> (step: WatchStep)
        ensures
            (step@, final(self).disconnected_since) == watched(
                old(self).disconnected_since,
                now,
                observed,
            ),
    {
        let state = match observed {
            Observed::MountClosed => return WatchStep::Stop,
            Observed::Detached => return WatchStep::Close("data channel session detached"),
            Observed::State(state) => state,
        };
        let elapsed: Option<u64> = match self.disconnected_since {
            None => None,
            Some(since) => Some(
                if now < since {
                    0
                } else {
                    now - since
                },
            ),
        };
        match judge_channel(state, elapsed) {
            ChannelVerdict::Healthy => {
                self.disconnected_since = None;
                WatchStep::Again
            },
            ChannelVerdict::Wait => {
                if self.disconnected_since.is_none() {
                    self.disconnected_since = Some(now);
                }
                WatchStep::Again
            },
            ChannelVerdict::Kill(_) => WatchStep::Close("data channel died"),
        }
    }
}

/// A disconnect that ends inside the grace window costs nothing: the next one
/// has the whole window again.
pub proof fn law_recovery_resets_the_grace_window(since: Option<u64>, now: u64, later: u64)
    ensures
        watched(since, now, Observed::State(ChannelState::Connected)) == (
            WatchStepView::Again,
            None::<u64>,
        ),
        watched(None, later, Observed::State(ChannelState::Disconnected)) == (
            WatchStepView::Again,
            Some(later),
        ),
{
}

/// A disconnect that stands is given up exactly when the window has passed.
pub proof fn law_a_standing_disconnect_is_given_up(since: u64, now: u64)
    requires
        since <= now,
    ensures
        watched(Some(since), now, Observed::State(ChannelState::Disconnected)).0 is Close <==> now
            - since >= CHANNEL_DISCONNECT_GRACE_MS,
{
}

/// A channel that is up or coming up is fine; one that failed or closed is not,
/// however short a time; one that is disconnected is given ten seconds.
pub proof fn law_a_channel_is_judged_by_its_state(disconnected_for_ms: Option<u64>)
    ensures
        judged(ChannelState::New, disconnected_for_ms) is Healthy,
        judged(ChannelState::Connecting, disconnected_for_ms) is Healthy,
        judged(ChannelState::Connected, disconnected_for_ms) is Healthy,
        judged(ChannelState::Failed, disconnected_for_ms) is Kill,
        judged(ChannelState::Closed, disconnected_for_ms) is Kill,
        disconnected_for_ms is None ==> judged(
            ChannelState::Disconnected,
            disconnected_for_ms,
        ) is Wait,
        disconnected_for_ms matches Some(n) ==> (n < 10_000 ==> judged(
            ChannelState::Disconnected,
            disconnected_for_ms,
        ) is Wait) && (n >= 10_000 ==> judged(
            ChannelState::Disconnected,
            disconnected_for_ms,
        ) is Kill),
{
}

/// A watch polls on while the channel lives and stops with the mount. It closes the
/// mount when the session is gone or the channel beyond saving. A disconnect counts
/// from when it was first seen, also where the clock went backwards since.
pub proof fn law_a_watch_ends_with_its_channel(since: Option<u64>, now: u64, first: u64)
    ensures
        watched(since, now, Observed::MountClosed).0 is Stop,
        watched(since, now, Observed::Detached).0 == WatchStepView::Close(
            "data channel session detached"@,
        ),
        watched(since, now, Observed::State(ChannelState::Failed)).0 == WatchStepView::Close(
            "data channel died"@,
        ),
        watched(since, now, Observed::State(ChannelState::Closed)).0 == WatchStepView::Close(
            "data channel died"@,
        ),
        watched(since, now, Observed::State(ChannelState::New)) == (
            WatchStepView::Again,
            None::<u64>,
        ),
        watched(since, now, Observed::State(ChannelState::Connecting)) == (
            WatchStepView::Again,
            None::<u64>,
        ),
        now - first < 10_000 ==> watched(
            Some(first),
            now,
            Observed::State(ChannelState::Disconnected),
        ) == (WatchStepView::Again, Some(first)),
        now - first >= 10_000 ==> watched(
            Some(first),
            now,
            Observed::State(ChannelState::Disconnected),
        ).0 == WatchStepView::Close("data channel died"@),
{
}

} // verus!
