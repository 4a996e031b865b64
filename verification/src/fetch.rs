//! What a client makes of a listing it is handed.
use crate::authorship::{acceptance, signed_manifest_of, PublicKey, SignedManifest, SignedView};
use crate::digest::{fingerprint, manifest_fingerprint};
use crate::error::WireError;
use crate::framing::{CLOSE_UNAUTHORIZED, MAX_MANIFEST_BYTES};
use crate::manifest::{manifest_of, ManifestView, MountManifest};
use crate::text::{copy_opt, opt_text, text_eq};
use crate::update::key_view;
use vstd::prelude::*;

verus! {

/// The listing inside an envelope that a peer served. On a signed share it has
/// to be the creator's, and no older than version `seen`.
pub open spec fn opened(body: Seq<u8>, author: Option<Seq<u8>>, seen: u64) -> Result<
    (SignedView, ManifestView),
    WireError,
> {
    match signed_manifest_of(body) {
        Err(e) => Err(e),
        Ok(signed) => if signed.manifest.len() > MAX_MANIFEST_BYTES {
            Err(WireError::OverCap)
        } else if author matches Some(key) && acceptance(signed, key, seen) is Err {
            Err(acceptance(signed, author->Some_0, seen)->Err_0)
        } else {
            match manifest_of(signed.manifest) {
                Err(e) => Err(e),
                Ok(m) => Ok((signed, m)),
            }
        },
    }
}

/// Opens an envelope that a peer served.
///
/// # Errors
/// The envelope or the listing does not decode, the listing is over its cap, or
/// the creator did not publish it, or published a later one.
pub fn open_envelope(body: &[u8], author: Option<&PublicKey>, seen: u64) -> (out: Result<
    (SignedManifest, MountManifest),
    WireError,
>)
    ensures
        match opened(body@, key_view(author), seen) {
            Err(e) => out == Err::<(SignedManifest, MountManifest), WireError>(e),
            Ok((signed, m)) => out is Ok && out->Ok_0.0@ == signed && out->Ok_0.1@ == m,
        },
{
    let signed = match SignedManifest::decode(body) {
        Err(e) => return Err(e),
        Ok(signed) => signed,
    };
    if signed.manifest.len() > MAX_MANIFEST_BYTES as usize {
        return Err(WireError::OverCap);
    }
    match author {
        None => {},
        Some(key) => match signed.accept(key, seen) {
            Err(e) => return Err(e),
            Ok(_) => {},
        },
    }
    match MountManifest::decode(signed.manifest.as_slice()) {
        Err(e) => Err(e),
        Ok(manifest) => Ok((signed, manifest)),
    }
}

/// Why a listing is not taken.
#[derive(Debug, Clone, Copy, PartialEq, Eq, Structural)]
pub enum FetchError {
    /// It could not be opened.
    Wire(WireError),
    /// It is of another tree than the one its peer was vetted against.
    TreeChanged,
}

impl FetchError {
    pub open spec fn text(self) -> Seq<char> {
        match self {
            FetchError::Wire(e) => "decode manifest: "@ + e.text(),
            FetchError::TreeChanged => {
                "the seeder changed trees after being vetted; refusing its manifest"@
            },
        }
    }

    /// What went wrong, in words.
    pub fn message(self) -> (text: String)
        ensures
            text@ == self.text(),
    {
        match self {
            FetchError::Wire(e) => {
                let mut text = "decode manifest: ".to_owned();
                text.push_str(e.message());
                text
            },
            FetchError::TreeChanged => {
                "the seeder changed trees after being vetted; refusing its manifest".to_owned()
            },
        }
    }
}

/// What a client keeps of the listings it was served.
#[derive(Debug, Clone, PartialEq, Eq)]
pub struct Desk {
    /// The tree a stand-in for the origin was vetted against. The origin is
    /// held to none: it alone may change the tree.
    pinned: Option<String>,
    /// The tree last learned.
    last: Option<String>,
    /// The highest version taken so far.
    seen: u64,
    /// An envelope fetched ahead of the first request.
    ahead: Option<Vec<u8>>,
    /// Whether a request has been answered with a listing.
    answered: bool,
}

pub struct DeskView {
    pub pinned: Option<Seq<char>>,
    pub last: Option<Seq<char>>,
    pub seen: u64,
    pub ahead: Option<Seq<u8>>,
    pub answered: bool,
}

impl View for Desk {
    type V = DeskView;

    closed spec fn view(&self) -> DeskView {
        DeskView {
            pinned: opt_text(self.pinned),
            last: opt_text(self.last),
            seen: self.seen,
            ahead: match self.ahead {
                Some(bytes) => Some(bytes@),
                None => None,
            },
            answered: self.answered,
        }
    }
}

/// What a served envelope comes to at a desk.
pub open spec fn taken(desk: DeskView, body: Seq<u8>, author: Option<Seq<u8>>) -> Result<
    (SignedView, ManifestView),
    FetchError,
> {
    match opened(body, author, desk.seen) {
        Err(e) => Err(FetchError::Wire(e)),
        Ok((signed, m)) => if desk.pinned matches Some(tree) && tree != fingerprint(
            signed.manifest,
        ) {
            Err(FetchError::TreeChanged)
        } else {
            Ok((signed, m))
        },
    }
}

/// The desk after an envelope was taken.
pub open spec fn desk_after(desk: DeskView, signed: SignedView) -> DeskView {
    DeskView {
        last: Some(fingerprint(signed.manifest)),
        seen: if signed.version > desk.seen {
            signed.version
        } else {
            desk.seen
        },
        ..desk
    }
}

impl Desk {
    /// The desk of a client that reaches the origin (`None`), or a stand-in that
    /// was vetted against a tree.
    #[must_use]
    pub fn new(pinned: Option<String>) -> (desk: Self)
        ensures
            desk@ == (DeskView {
                pinned: opt_text(pinned),
                last: None,
                seen: 0,
                ahead: None,
                answered: false,
            }),
    {
        Desk { pinned, last: None, seen: 0, ahead: None, answered: false }
    }

    /// An envelope was fetched ahead. It is kept for the first request only:
    /// one that lands later could be older than what the client has seen.
    pub fn offer_ahead(&mut self, body: Vec<u8>)
        ensures
            final(self)@ == (if old(self)@.answered {
                old(self)@
            } else {
                DeskView { ahead: Some(body@), ..old(self)@ }
            }),
    {
        if !self.answered {
            self.ahead = Some(body);
        }
    }

    /// The envelope in hand, if there is one. It is handed out once.
    pub fn take_ahead(&mut self) -> (body: Option<Vec<u8>>)
        ensures
            match body {
                Some(b) => old(self)@.ahead == Some(b@),
                None => old(self)@.ahead is None,
            },
            final(self)@ == (DeskView { ahead: None, ..old(self)@ }),
    {
        self.ahead.take()
    }

    /// Takes a served envelope, in hand or fresh. On any failure what the desk
    /// knows of the tree stays what it was.
    ///
    /// # Errors
    /// It does not open, or it is of another tree than the pinned one.
    pub fn take(&mut self, body: &[u8], author: Option<&PublicKey>) -> (out: Result<
        (SignedManifest, MountManifest),
        FetchError,
    >)
        ensures
            match taken(old(self)@, body@, key_view(author)) {
                Err(e) => out == Err::<(SignedManifest, MountManifest), FetchError>(e) && final(self)@
                    == (DeskView { answered: old(self)@.answered || e is TreeChanged, ..old(self)@ }),
                Ok((signed, m)) => out is Ok && out->Ok_0.0@ == signed && out->Ok_0.1@ == m
                    && final(self)@ == desk_after(
                    DeskView { answered: true, ..old(self)@ },
                    signed,
                ),
            },
    {
        let (signed, manifest) = match open_envelope(body, author, self.seen) {
            Err(e) => return Err(FetchError::Wire(e)),
            Ok(pair) => pair,
        };
        self.answered = true;
        let tree = manifest_fingerprint(signed.manifest.as_slice());
        let changed: bool = match &self.pinned {
            None => false,
            Some(pinned) => !text_eq(pinned.as_str(), tree.as_str()),
        };
        if changed {
            return Err(FetchError::TreeChanged);
        }
        self.last = Some(tree);
        if signed.version > self.seen {
            self.seen = signed.version;
        }
        Ok((signed, manifest))
    }

    /// The tree last learned, for a card.
    #[must_use]
    pub fn last_tree(&self) -> (tree: Option<String>)
        ensures
            opt_text(tree) == self@.last,
    {
        copy_opt(&self.last)
    }
}

/// A stand-in for the origin cannot change the tree after it was vetted:
/// whatever it serves, only the pinned tree is taken.
pub proof fn law_a_stand_in_is_held_to_its_tree(
    desk: DeskView,
    body: Seq<u8>,
    author: Option<Seq<u8>>,
)
    requires
        desk.pinned is Some,
    ensures
        taken(desk, body, author) matches Ok((signed, _)) ==> Some(fingerprint(signed.manifest))
            == desk.pinned,
{
}

/// On a signed share only what the creator published is taken, and never an
/// older version after a later one.
pub proof fn law_a_signed_share_never_goes_back(desk: DeskView, body: Seq<u8>, key: Seq<u8>)
    ensures
        taken(desk, body, Some(key)) matches Ok((signed, _)) ==> {
            &&& signed.version >= desk.seen
            &&& crate::authorship::manifest_signed(
                key,
                signed.version,
                signed.manifest,
                signed.signature,
            )
            &&& desk_after(desk, signed).seen == signed.version
        },
{
}

/// What marks every failure of a credential, so that a page can ask again.
pub const UNAUTHORIZED_PREFIX: &'static str = "unauthorized:";

/// A failure of a credential.
pub open spec fn unauthorized_text(detail: Seq<char>) -> Seq<char> {
    UNAUTHORIZED_PREFIX@ + " "@ + detail
}

/// The failure a page asks for the password again on.
#[must_use]
pub fn unauthorized(detail: &str) -> (text: String)
    ensures
        text@ == unauthorized_text(detail@),
{
    let mut text = UNAUTHORIZED_PREFIX.to_owned();
    text.push_str(" ");
    text.push_str(detail);
    text
}

/// Whether a connection was closed because the credential was refused: by the
/// code the producer closed it with, if it did.
#[must_use]
pub fn unauthorized_close(code: Option<u64>) -> (refused: bool)
    ensures
        refused == (code == Some(CLOSE_UNAUTHORIZED as u64)),
{
    match code {
        None => false,
        Some(code) => code == CLOSE_UNAUTHORIZED as u64,
    }
}

/// The failure of a first request. A refused credential surfaces there, and is
/// marked.
#[must_use]
pub fn request_failure(error: &str, closed_with: Option<u64>) -> (text: String)
    ensures
        text@ == (if closed_with == Some(CLOSE_UNAUTHORIZED as u64) {
            unauthorized_text(error@)
        } else {
            error@
        }),
{
    if unauthorized_close(closed_with) {
        unauthorized(error)
    } else {
        error.to_owned()
    }
}

/// The failure to open a stream, in terms of what broke: a connection that
/// expired while idle, or one that was lost for another reason.
#[must_use]
pub fn stream_open_failed(what: &str, idle: bool, error: &str) -> (text: String)
    ensures
        text@ == (if idle {
            what@ + ": the connection to the producer expired while idle. A backgrounded tab throttles timers below the keep-alive interval, which is enough to lose it. Reload the page to reconnect."@
        } else {
            what@ + ": connection to the producer lost: "@ + error@
        }),
{
    let mut text = what.to_owned();
    if idle {
        text.push_str(": the connection to the producer expired while idle. A backgrounded tab throttles timers below the keep-alive interval, which is enough to lose it. Reload the page to reconnect.");
        return text;
    }
    text.push_str(": connection to the producer lost: ");
    text.push_str(error);
    text
}

/// A listing that a peer serves is taken whenever it is in order: it opens, it is
/// within its cap, it is of the tree the peer is held to, and on a signed share
/// the creator signed it at a version no older than any taken before.
pub proof fn law_a_good_listing_is_taken(
    desk: DeskView,
    body: Seq<u8>,
    author: Option<Seq<u8>>,
    signed: SignedView,
    m: ManifestView,
)
    requires
        signed_manifest_of(body) == Ok::<SignedView, WireError>(signed),
        signed.manifest.len() <= 64 * 1024 * 1024,
        manifest_of(signed.manifest) == Ok::<ManifestView, WireError>(m),
        desk.pinned matches Some(tree) ==> tree == fingerprint(signed.manifest),
        author matches Some(key) ==> signed.version >= desk.seen && crate::authorship::ed25519_verifies(
            key,
            crate::authorship::signed_bytes(signed.version, signed.manifest),
            signed.signature,
        ),
    ensures
        taken(desk, body, author) == Ok::<(SignedView, ManifestView), FetchError>((signed, m)),
        ({
            let after = desk_after(desk, signed);
            &&& after.last == Some(fingerprint(signed.manifest))
            &&& after.seen >= desk.seen
            &&& after.seen >= signed.version
            &&& after.seen == desk.seen || after.seen == signed.version
            &&& after.pinned == desk.pinned
            &&& after.ahead == desk.ahead
        }),
{
}

/// What is taken is what was served, and nothing over the cap is.
pub proof fn law_what_is_taken_was_served(
    desk: DeskView,
    body: Seq<u8>,
    author: Option<Seq<u8>>,
)
    ensures
        taken(desk, body, author) matches Ok((signed, m)) ==> {
            &&& signed_manifest_of(body) == Ok::<SignedView, WireError>(signed)
            &&& manifest_of(signed.manifest) == Ok::<ManifestView, WireError>(m)
            &&& signed.manifest.len() <= 64 * 1024 * 1024
        },
{
}

} // verus!
