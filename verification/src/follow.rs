//! Following a share as it changes.
use crate::authorship::{PublicKey, SignedManifest, SignedView};
use crate::manifest::{ManifestView, MountManifest};
use crate::update::{apply_watch_frame, frame_can_apply, frame_fits, key_view, watch_outcome};
use vstd::prelude::*;
use vstd::slice::slice_subrange;

verus! {

/// How a watch stream ended.
#[derive(Debug, Clone, Copy, PartialEq, Eq, Structural)]
pub enum WatchEnd {
    /// Before any frame: the producer does no live watch.
    Unsupported,
    /// Otherwise: try again while the connection is open.
    Retryable,
}

/// What to do after a watch stream ended.
#[derive(Debug, Clone, Copy, PartialEq, Eq, Structural)]
pub enum Rewatch {
    Stop,
    /// Open another stream after this many milliseconds.
    After(u64),
}

/// What to do after a watch stream ended.
#[must_use]
pub fn rewatch(end: WatchEnd, connection_closed: bool) -> (next: Rewatch)
    ensures
        next == (if end is Unsupported || connection_closed {
            Rewatch::Stop
        } else {
            Rewatch::After(3_000)
        }),
{
    match end {
        WatchEnd::Unsupported => Rewatch::Stop,
        WatchEnd::Retryable => {
            if connection_closed {
                Rewatch::Stop
            } else {
                Rewatch::After(3_000)
            }
        },
    }
}

/// A watch stream being followed.
pub struct Follow {
    held: SignedManifest,
    saw_frame: bool,
}

pub struct FollowView {
    pub held: SignedView,
    pub saw_frame: bool,
}

impl View for Follow {
    type V = FollowView;

    closed spec fn view(&self) -> FollowView {
        FollowView { held: self.held@, saw_frame: self.saw_frame }
    }
}

/// What one frame leads to: the tree it leaves and what is held then, or the end
/// of the stream. A frame is a kind byte and a payload.
pub open spec fn followed(f: FollowView, body: Seq<u8>, author: Option<Seq<u8>>) -> Result<
    (FollowView, ManifestView),
    WatchEnd,
> {
    if body.len() == 0 || !frame_fits(f.held, body[0], body.skip(1)) {
        Err(WatchEnd::Retryable)
    } else {
        match watch_outcome(f.held, body[0], body.skip(1), author) {
            Err(_) => Err(WatchEnd::Retryable),
            Ok((held, tree)) => Ok((FollowView { held, saw_frame: true }, tree)),
        }
    }
}

impl Follow {
    /// Begins to follow a share from the listing held. Only the origin is
    /// followed: a stand-in serves a frozen snapshot and has no right to move
    /// the tree.
    #[must_use]
    pub fn begin(from_origin: bool, held: SignedManifest) -> (out: Option<Self>)
        ensures
            match out {
                Some(f) => from_origin && f@ == (FollowView { held: held@, saw_frame: false }),
                None => !from_origin,
            },
    {
        if from_origin {
            Some(Follow { held, saw_frame: false })
        } else {
            None
        }
    }

    /// The stream gave no further header.
    #[must_use]
    pub fn header_failed(&self) -> (end: WatchEnd)
        ensures
            end == (if self@.saw_frame {
                WatchEnd::Retryable
            } else {
                WatchEnd::Unsupported
            }),
    {
        if self.saw_frame {
            WatchEnd::Retryable
        } else {
            WatchEnd::Unsupported
        }
    }

    /// Takes one frame. Hands out the whole tree, for a page to show. A frame
    /// that cannot be taken ends the stream and changes nothing.
    ///
    /// # Errors
    /// The frame is empty, of an unknown kind, does not decode, names a position
    /// that cannot be addressed, goes back in version, or is not the creator's.
    pub fn frame(&mut self, body: &[u8], author: Option<&PublicKey>) -> (out: Result<
        MountManifest,
        WatchEnd,
    >)
        ensures
            match followed(old(self)@, body@, key_view(author)) {
                Err(end) => out == Err::<MountManifest, WatchEnd>(end) && final(self)@ == old(self)@,
                Ok((next, tree)) => out is Ok && out->Ok_0@ == tree && final(self)@ == next,
            },
    {
        if body.len() == 0 {
            return Err(WatchEnd::Retryable);
        }
        let kind: u8 = body[0];
        let payload = slice_subrange(body, 1, body.len());
        assert(payload@ =~= body@.skip(1));
        if !frame_can_apply(&self.held, kind, payload) {
            return Err(WatchEnd::Retryable);
        }
        match apply_watch_frame(&mut self.held, kind, payload, author) {
            Err(_) => Err(WatchEnd::Retryable),
            Ok(tree) => {
                self.saw_frame = true;
                Ok(tree)
            },
        }
    }
}

/// Whoever relays the frames of a signed share, a follower's version never goes
/// back.
pub proof fn law_a_follower_never_goes_back(f: FollowView, body: Seq<u8>, author: Option<Seq<u8>>)
    ensures
        followed(f, body, author) matches Ok((next, _)) ==> next.held.version >= f.held.version
            && next.saw_frame,
{
    if body.len() > 0 {
        crate::update::law_frames_never_roll_back(f.held, body[0], body.skip(1), author);
    }
}

/// A follower takes what a frame carries, kind byte first, and shows the listing
/// it leads to; a frame that leads nowhere ends the stream and is not counted.
pub proof fn law_a_follower_takes_good_frames(
    f: FollowView,
    kind: u8,
    payload: Seq<u8>,
    author: Option<Seq<u8>>,
)
    requires
        frame_fits(f.held, kind, payload),
    ensures
        match watch_outcome(f.held, kind, payload, author) {
            Ok((next, tree)) => followed(f, seq![kind] + payload, author) == Ok::<
                (FollowView, ManifestView),
                WatchEnd,
            >((FollowView { held: next, saw_frame: true }, tree)),
            Err(_) => followed(f, seq![kind] + payload, author) == Err::<
                (FollowView, ManifestView),
                WatchEnd,
            >(WatchEnd::Retryable),
        },
{
    assert((seq![kind] + payload).skip(1) =~= payload);
}

} // verus!
