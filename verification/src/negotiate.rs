//! Which peers to offer a direct session to.
use crate::digest_map::DigestMap;
use crate::text::{bytes_before, bytes_eq, bytes_lt, lemma_bytes_lt_total};
use vstd::prelude::*;

verus! {

/// The most direct sessions a node negotiates.
pub const MAX_DIRECT_PEERS: usize = 16;

/// What a node knows of a peer when it thinks about offering it a session.
#[derive(Debug, Clone, Copy, PartialEq, Eq)]
pub struct Standing {
    /// Whether the node has a transport that carries direct sessions.
    pub has_transport: bool,
    /// Whether a session with the peer exists.
    pub has_session: bool,
    /// How many sessions the node has.
    pub sessions: usize,
}

/// Whether an offer is made: the lower id offers, so exactly one crosses per
/// pair; never to a peer that has a session or is being dialled; and only below
/// the cap.
pub open spec fn offers(
    local: Seq<u8>,
    peer: Seq<u8>,
    standing: Standing,
    dialing: Set<Seq<u8>>,
) -> bool {
    &&& standing.has_transport
    &&& !standing.has_session
    &&& !bytes_lt(peer, local)
    &&& !dialing.contains(peer)
    &&& standing.sessions < MAX_DIRECT_PEERS
}

/// The peers that are being dialled.
pub struct Dialing {
    peers: DigestMap<()>,
}

impl View for Dialing {
    type V = Set<Seq<u8>>;

    closed spec fn view(&self) -> Set<Seq<u8>> {
        self.peers@.dom()
    }
}

impl Dialing {
    pub closed spec fn wf(&self) -> bool {
        self.peers.wf()
    }

    #[must_use]
    pub fn new() -> (out: Self)
        ensures
            out.wf(),
            out@ == Set::<Seq<u8>>::empty(),
    {
        let out = Dialing { peers: DigestMap::new() };
        assert(out@ =~= Set::<Seq<u8>>::empty());
        out
    }

    /// Whether to offer a peer a session now. Where it says so, the peer counts
    /// as being dialled until [`Self::finished`].
    pub fn negotiate_session(&mut self, local: &[u8; 32], peer: &[u8; 32], standing: Standing) -> (
    offer: bool)
        requires
            old(self).wf(),
        ensures
            final(self).wf(),
            offer == offers(local@, peer@, standing, old(self)@),
            final(self)@ == (if offer {
                old(self)@.insert(peer@)
            } else {
                old(self)@
            }),
    {
        if !standing.has_transport || standing.has_session {
            return false;
        }
        if bytes_before(peer.as_slice(), local.as_slice()) {
            return false;
        }
        if self.peers.contains(peer) {
            return false;
        }
        if standing.sessions >= MAX_DIRECT_PEERS {
            return false;
        }
        let ghost was = self@;
        self.peers.insert(peer, ());
        assert(self@ =~= was.insert(peer@));
        true
    }

    /// A dial ended, well or not: the peer can be dialled again.
    pub fn finished(&mut self, peer: &[u8; 32])
        requires
            old(self).wf(),
        ensures
            final(self).wf(),
            final(self)@ == old(self)@.remove(peer@),
    {
        let ghost was = self@;
        self.peers.remove(peer);
        assert(self@ =~= was.remove(peer@));
    }
}

/// The peers a retry goes through: all but the rendezvous.
pub open spec fn without(peers: Seq<[u8; 32]>, rendezvous: Seq<u8>) -> Seq<[u8; 32]>
    decreases peers.len(),
{
    if peers.len() == 0 {
        Seq::empty()
    } else if peers.last()@ == rendezvous {
        without(peers.drop_last(), rendezvous)
    } else {
        without(peers.drop_last(), rendezvous).push(peers.last())
    }
}

/// The peers a retry goes through: all but the rendezvous.
#[must_use]
pub fn retry_sessions(peers: &[[u8; 32]], rendezvous: &[u8; 32]) -> (out: Vec<[u8; 32]>)
    ensures
        out@ == without(peers@, rendezvous@),
{
    let mut out: Vec<[u8; 32]> = Vec::new();
    let mut i: usize = 0;
    assert(peers@.take(0) =~= Seq::empty());
    while i < peers.len()
        invariant
            0 <= i <= peers@.len(),
            out@ == without(peers@.take(i as int), rendezvous@),
        decreases peers@.len() - i,
    {
        assert(peers@.take(i as int + 1).drop_last() =~= peers@.take(i as int));
        if !bytes_eq(peers[i].as_slice(), rendezvous.as_slice()) {
            out.push(peers[i]);
        }
        i += 1;
    }
    assert(peers@.take(i as int) =~= peers@);
    out
}

/// Whether an answer may attach a session: the id it claims has to be the one
/// the connection proved.
#[must_use]
pub fn claim_holds(claimed: Option<[u8; 32]>, remote: &[u8; 32]) -> (ok: bool)
    ensures
        ok == (claimed is Some && claimed->Some_0@ == remote@),
{
    match claimed {
        None => false,
        Some(claimed) => bytes_eq(claimed.as_slice(), remote.as_slice()),
    }
}

/// Of two different peers that both could offer, exactly one does: offers never
/// cross.
pub proof fn law_exactly_one_side_offers(a: Seq<u8>, b: Seq<u8>, at_a: Standing, at_b: Standing)
    requires
        a != b,
        at_a.has_transport && !at_a.has_session && at_a.sessions < MAX_DIRECT_PEERS,
        at_b.has_transport && !at_b.has_session && at_b.sessions < MAX_DIRECT_PEERS,
    ensures
        offers(a, b, at_a, Set::empty()) != offers(b, a, at_b, Set::empty()),
{
    lemma_bytes_lt_total(a, b);
}

/// While a peer is being dialled it is not dialled again, and afterwards it can
/// be.
pub proof fn law_a_dial_is_not_repeated(
    local: Seq<u8>,
    peer: Seq<u8>,
    standing: Standing,
    dialing: Set<Seq<u8>>,
)
    requires
        offers(local, peer, standing, dialing),
    ensures
        !offers(local, peer, standing, dialing.insert(peer)),
        offers(local, peer, standing, dialing.insert(peer).remove(peer)),
{
}

/// A node with a transport offers a session to a peer above it that it has none
/// with and does not dial already, as long as it has fewer than sixteen. It offers
/// none in any other case.
pub proof fn law_a_session_is_offered_upwards(
    local: Seq<u8>,
    peer: Seq<u8>,
    standing: Standing,
    dialing: Set<Seq<u8>>,
)
    requires
        local != peer,
    ensures
        standing.has_transport && !standing.has_session && bytes_lt(local, peer)
            && !dialing.contains(peer) && standing.sessions < 16 ==> offers(
            local,
            peer,
            standing,
            dialing,
        ),
        !standing.has_transport ==> !offers(local, peer, standing, dialing),
        standing.has_session ==> !offers(local, peer, standing, dialing),
        bytes_lt(peer, local) ==> !offers(local, peer, standing, dialing),
        dialing.contains(peer) ==> !offers(local, peer, standing, dialing),
        standing.sessions >= 16 ==> !offers(local, peer, standing, dialing),
{
    lemma_bytes_lt_total(local, peer);
}

/// A retry goes through every peer but the rendezvous, in their order.
pub proof fn law_a_retry_leaves_the_rendezvous_out(peers: Seq<[u8; 32]>, rendezvous: Seq<u8>)
    ensures
        without(peers, rendezvous) == peers.filter(|peer: [u8; 32]| peer@ != rendezvous),
    decreases peers.len(),
{
    reveal(Seq::filter);
    if peers.len() > 0 {
        law_a_retry_leaves_the_rendezvous_out(peers.drop_last(), rendezvous);
    } else {
        assert(peers =~= Seq::empty());
    }
}

} // verus!
