//! A client's membership in its share's mesh.
//!
//! Joining runs beside the client, so it can land after the client was let go.
//! And a client that reached its share through the mesh holds a membership
//! that others will take up again. Each membership is said goodbye to once.
use vstd::prelude::*;

verus! {

/// A membership, told apart by a number of its own.
pub type Membership = u64;

/// Where a client stands with the mesh.
#[derive(Debug, Clone, Copy, PartialEq, Eq, Structural)]
pub enum MeshSlot {
    /// No membership yet; one may still come.
    Pending,
    Joined(Membership),
    /// The client let go. A membership that comes now is to be left again.
    Left,
}

/// What a slot holds.
pub open spec fn joined(slot: MeshSlot) -> Option<Membership> {
    match slot {
        MeshSlot::Joined(peer) => Some(peer),
        _ => None,
    }
}

/// Where a client stands after a join landed.
pub open spec fn installed(slot: MeshSlot, peer: Membership) -> MeshSlot {
    if slot is Left {
        slot
    } else {
        MeshSlot::Joined(peer)
    }
}

/// Which membership a client that lets go says goodbye to: its own, unless that
/// is the one kept waiting.
pub open spec fn farewell(slot: MeshSlot, waiting: Option<Membership>) -> Option<Membership> {
    if joined(slot) == waiting {
        None
    } else {
        joined(slot)
    }
}

impl MeshSlot {
    /// The membership, once there is one.
    #[must_use]
    pub fn peer(&self) -> (peer: Option<Membership>)
        ensures
            peer == joined(*self),
    {
        match self {
            MeshSlot::Joined(peer) => Some(*peer),
            _ => None,
        }
    }

    /// A join landed. Says whether it was taken up; one that was not has to be
    /// left.
    pub fn install(&mut self, peer: Membership) -> (taken: bool)
        ensures
            taken == !(*old(self) is Left),
            *final(self) == installed(*old(self), peer),
    {
        match self {
            MeshSlot::Left => false,
            _ => {
                *self = MeshSlot::Joined(peer);
                true
            },
        }
    }

    /// Lets the membership go. Hands out the one to say goodbye to: none where
    /// the membership is the one kept waiting for later clients.
    pub fn leave(&mut self, waiting: Option<Membership>) -> (goodbye: Option<Membership>)
        ensures
            *final(self) == MeshSlot::Left,
            goodbye == farewell(*old(self), waiting),
    {
        let own: Option<Membership> = self.peer();
        *self = MeshSlot::Left;
        match own {
            None => None,
            Some(peer) => match waiting {
                Some(kept) => {
                    if kept == peer {
                        None
                    } else {
                        Some(peer)
                    }
                },
                None => Some(peer),
            },
        }
    }

    /// Lets everything go because the page is going away. Hands out the client's
    /// own membership to leave, and the waiting one to retire: never the same
    /// one twice.
    pub fn shutdown(&mut self, waiting: Option<Membership>) -> (goodbyes: (
        Option<Membership>,
        Option<Membership>,
    ))
        ensures
            *final(self) == MeshSlot::Left,
            goodbyes.0 == farewell(*old(self), waiting),
            goodbyes.1 == waiting,
    {
        let own = self.leave(waiting);
        (own, waiting)
    }
}

/// A client that was let go before its join landed keeps no membership,
/// whatever lands later.
pub proof fn law_a_released_client_joins_nothing(peer: Membership)
    ensures
        joined(installed(MeshSlot::Left, peer)) is None,
{
}

/// No membership is said goodbye to twice: the client's own is not the one that
/// is kept waiting.
pub proof fn law_one_goodbye_per_membership(slot: MeshSlot, waiting: Option<Membership>)
    ensures
        farewell(slot, waiting) is Some ==> farewell(slot, waiting) != waiting,
        farewell(MeshSlot::Left, waiting) is None,
{
}

/// A client that was not let go takes up the membership that lands, in place of any
/// it had. Letting go says goodbye to the membership it has, unless that one is
/// kept waiting.
pub proof fn law_a_client_has_the_membership_that_landed(
    slot: MeshSlot,
    peer: Membership,
    waiting: Option<Membership>,
)
    ensures
        slot != MeshSlot::Left ==> installed(slot, peer) == MeshSlot::Joined(peer),
        installed(MeshSlot::Left, peer) == MeshSlot::Left,
        joined(MeshSlot::Joined(peer)) == Some(peer),
        joined(MeshSlot::Pending) is None,
        joined(MeshSlot::Left) is None,
        waiting != Some(peer) ==> farewell(MeshSlot::Joined(peer), waiting) == Some(peer),
        waiting == Some(peer) ==> farewell(MeshSlot::Joined(peer), waiting) is None,
        farewell(MeshSlot::Pending, waiting) is None,
{
}

} // verus!
