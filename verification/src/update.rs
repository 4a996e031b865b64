//! Taking a newer listing from a peer: whole, or as deltas over the one held.
//!
//! Whatever arrives, what a consumer holds moves only to a version that is not
//! older and, on a signed share, only to bytes the creator signed.
use crate::authorship::{
    acceptance, ed25519_verifies, signed_bytes, signed_manifest_of, PublicKey, SignedManifest,
    SignedView,
};
use crate::delta::{applied, delta_of, slots_addressable, DeltaView, ManifestDelta};
use crate::error::WireError;
use crate::framing::{
    since_of, vecs, ManifestSince, ManifestSinceView, WATCH_FRAME_DELTA, WATCH_FRAME_MANIFEST,
};
use crate::manifest::{manifest_bytes, manifest_fits, manifest_of, ManifestView, MountManifest};
use vstd::prelude::*;

verus! {

/// The listing that encoded deltas lead to, one after the other.
pub open spec fn replayed(m: ManifestView, deltas: Seq<Seq<u8>>) -> Result<
    ManifestView,
    WireError,
>
    decreases deltas.len(),
{
    if deltas.len() == 0 {
        Ok(m)
    } else {
        match delta_of(deltas[0]) {
            Err(e) => Err(e),
            Ok(d) => replayed(applied(m, d), deltas.skip(1)),
        }
    }
}

/// The listing that an answer rebuilds over the manifest held.
pub open spec fn rebuilt(held: SignedView, answer: ManifestSinceView) -> Result<
    ManifestView,
    WireError,
> {
    match manifest_of(held.manifest) {
        Err(e) => Err(e),
        Ok(m) => replayed(m, answer.deltas),
    }
}

/// Whether every position the deltas name can be addressed on this machine.
pub open spec fn deltas_addressable(deltas: Seq<Seq<u8>>) -> bool {
    forall|i: int|
        0 <= i < deltas.len() ==> (delta_of(#[trigger] deltas[i]) matches Ok(d)
            ==> slots_addressable(d))
}

/// Whether the rebuilt listing can be encoded again: its counts fit their
/// fields, and its positions can be addressed on this machine.
pub open spec fn rebuild_fits(held: SignedView, answer: ManifestSinceView) -> bool {
    &&& deltas_addressable(answer.deltas)
    &&& rebuilt(held, answer) matches Ok(m) ==> manifest_fits(m)
}

/// What a consumer that holds `held` holds after `answer`.
pub open spec fn since_outcome(
    held: SignedView,
    answer: ManifestSinceView,
    author: Option<Seq<u8>>,
) -> Result<SignedView, WireError> {
    if answer.target_version < held.version {
        Err(WireError::Rollback)
    } else {
        match rebuilt(held, answer) {
            Err(e) => Err(e),
            Ok(m) => {
                let offered = SignedView {
                    version: answer.target_version,
                    signature: answer.signature,
                    manifest: manifest_bytes(m),
                };
                match author {
                    None => Ok(offered),
                    Some(key) => match acceptance(offered, key, held.version) {
                        Err(e) => Err(e),
                        Ok(_) => Ok(offered),
                    },
                }
            },
        }
    }
}

/// The key a check is made under, if any.
pub open spec fn key_view(author: Option<&PublicKey>) -> Option<Seq<u8>> {
    match author {
        None => None,
        Some(key) => Some(key@),
    }
}

/// The listing an answer rebuilds over the manifest held.
///
/// # Errors
/// The held manifest or a delta does not decode.
pub fn rebuild(held: &SignedManifest, answer: &ManifestSince) -> (out: Result<
    MountManifest,
    WireError,
>)
    requires
        deltas_addressable(answer@.deltas),
    ensures
        match rebuilt(held@, answer@) {
            Err(e) => out == Err::<MountManifest, WireError>(e),
            Ok(m) => out is Ok && out->Ok_0@ == m,
        },
{
    let mut manifest = match MountManifest::decode(held.manifest.as_slice()) {
        Err(e) => return Err(e),
        Ok(m) => m,
    };
    let ghost all = answer@.deltas;
    assert(all.skip(0) =~= all);
    let mut i: usize = 0;
    while i < answer.deltas.len()
        invariant
            0 <= i <= answer.deltas@.len(),
            all == vecs(answer.deltas@),
            deltas_addressable(all),
            rebuilt(held@, answer@) == replayed(manifest@, all.skip(i as int)),
        decreases answer.deltas@.len() - i,
    {
        assert(all.skip(i as int)[0] == all[i as int]);
        assert(all.skip(i as int).skip(1) =~= all.skip(i as int + 1));
        let delta = match ManifestDelta::decode(answer.deltas[i].as_slice()) {
            Err(e) => return Err(e),
            Ok(d) => d,
        };
        manifest.apply(&delta);
        i += 1;
    }
    Ok(manifest)
}

/// Applies a manifest-since answer over the manifest held, and takes the result
/// only where it is not a rollback and, given an authorship key, only where the
/// creator signed exactly the bytes that come out.
///
/// # Errors
/// The answer leads back in version, something does not decode, or the creator
/// did not sign what the deltas rebuild.
pub fn apply_since(
    held: &SignedManifest,
    answer: &ManifestSince,
    author: Option<&PublicKey>,
) -> (out: Result<SignedManifest, WireError>)
    requires
        rebuild_fits(held@, answer@),
    ensures
        match since_outcome(held@, answer@, key_view(author)) {
            Err(e) => out == Err::<SignedManifest, WireError>(e),
            Ok(next) => out is Ok && out->Ok_0@ == next,
        },
{
    if answer.target_version < held.version {
        return Err(WireError::Rollback);
    }
    let manifest = match rebuild(held, answer) {
        Err(e) => return Err(e),
        Ok(m) => m,
    };
    let signed = SignedManifest {
        version: answer.target_version,
        signature: answer.signature,
        manifest: manifest.encode(),
    };
    if let Some(key) = author {
        match signed.accept(key, held.version) {
            Err(e) => return Err(e),
            Ok(_) => {},
        }
    }
    Ok(signed)
}

/// What a consumer that holds `held` holds after one watch frame.
pub open spec fn frame_outcome(
    held: SignedView,
    kind: u8,
    payload: Seq<u8>,
    author: Option<Seq<u8>>,
) -> Result<SignedView, WireError> {
    if kind == WATCH_FRAME_MANIFEST {
        match signed_manifest_of(payload) {
            Err(e) => Err(e),
            Ok(offered) => match author {
                Some(key) => match acceptance(offered, key, held.version) {
                    Err(e) => Err(e),
                    Ok(_) => Ok(offered),
                },
                None => if offered.version < held.version {
                    Err(WireError::Rollback)
                } else {
                    Ok(offered)
                },
            },
        }
    } else if kind == WATCH_FRAME_DELTA {
        match since_of(payload) {
            Err(e) => Err(e),
            Ok(answer) => since_outcome(held, answer, author),
        }
    } else {
        Err(WireError::UnknownTag)
    }
}

/// The outcome of one watch frame: what is held next, and its decoding.
pub open spec fn watch_outcome(
    held: SignedView,
    kind: u8,
    payload: Seq<u8>,
    author: Option<Seq<u8>>,
) -> Result<(SignedView, ManifestView), WireError> {
    match frame_outcome(held, kind, payload, author) {
        Err(e) => Err(e),
        Ok(next) => match manifest_of(next.manifest) {
            Err(e) => Err(e),
            Ok(m) => Ok((next, m)),
        },
    }
}

/// What a manifest frame comes to where nobody signs: its listing, unless it is
/// older than the one that is held.
pub proof fn lemma_manifest_frame(
    held: SignedView,
    payload: Seq<u8>,
    signed: SignedView,
    m: ManifestView,
)
    requires
        signed_manifest_of(payload) == Ok::<SignedView, WireError>(signed),
        manifest_of(signed.manifest) == Ok::<ManifestView, WireError>(m),
        signed.version >= held.version,
    ensures
        watch_outcome(held, WATCH_FRAME_MANIFEST, payload, None) == Ok::<
            (SignedView, ManifestView),
            WireError,
        >((signed, m)),
{
}

/// Whether a delta frame's rebuilt listing can be encoded again.
pub open spec fn frame_fits(held: SignedView, kind: u8, payload: Seq<u8>) -> bool {
    kind == WATCH_FRAME_DELTA ==> (since_of(payload) matches Ok(answer) ==> rebuild_fits(
        held,
        answer,
    ))
}

fn addressable(deltas: &Vec<Vec<u8>>) -> (ok: bool)
    ensures
        ok == deltas_addressable(vecs(deltas@)),
{
    let ghost all = vecs(deltas@);
    let mut i: usize = 0;
    while i < deltas.len()
        invariant
            0 <= i <= deltas@.len(),
            all == vecs(deltas@),
            forall|k: int|
                0 <= k < i ==> (delta_of(#[trigger] all[k]) matches Ok(d) ==> slots_addressable(d)),
        decreases deltas@.len() - i,
    {
        assert(all[i as int] == deltas@[i as int]@);
        match ManifestDelta::decode(deltas[i].as_slice()) {
            Err(_) => {},
            Ok(delta) => {
                if !delta.is_addressable() {
                    assert(delta_of(all[i as int]) matches Ok(d) && !slots_addressable(d));
                    return false;
                }
            },
        }
        i += 1;
    }
    true
}

/// Whether a watch frame can be taken on this machine: whether the listing it
/// rebuilds has positions that can be addressed, and can be encoded again.
#[must_use]
pub fn frame_can_apply(held: &SignedManifest, kind: u8, payload: &[u8]) -> (ok: bool)
    ensures
        ok == frame_fits(held@, kind, payload@),
{
    if kind != WATCH_FRAME_DELTA {
        return true;
    }
    let answer = match ManifestSince::decode(payload) {
        Err(_) => return true,
        Ok(answer) => answer,
    };
    if !addressable(&answer.deltas) {
        return false;
    }
    match rebuild(held, &answer) {
        Err(_) => true,
        Ok(listing) => listing.fits(),
    }
}

/// Takes one watch frame. On any failure `held` stays what it was.
///
/// # Errors
/// The frame's kind is unknown, it does not decode, it leads back in version, or
/// the creator did not sign it.
pub fn apply_watch_frame(
    held: &mut SignedManifest,
    kind: u8,
    payload: &[u8],
    author: Option<&PublicKey>,
) -> (out: Result<MountManifest, WireError>)
    requires
        frame_fits(old(held)@, kind, payload@),
    ensures
        match watch_outcome(old(held)@, kind, payload@, key_view(author)) {
            Err(e) => out == Err::<MountManifest, WireError>(e) && *final(held) == *old(held),
            Ok((next, m)) => out is Ok && out->Ok_0@ == m && final(held)@ == next,
        },
{
    let next = if kind == WATCH_FRAME_MANIFEST {
        let offered = match SignedManifest::decode(payload) {
            Err(e) => return Err(e),
            Ok(v) => v,
        };
        match author {
            Some(key) => {
                match offered.accept(key, held.version) {
                    Err(e) => return Err(e),
                    Ok(_) => {},
                }
            },
            None => {
                if offered.version < held.version {
                    return Err(WireError::Rollback);
                }
            },
        }
        offered
    } else if kind == WATCH_FRAME_DELTA {
        let answer = match ManifestSince::decode(payload) {
            Err(e) => return Err(e),
            Ok(v) => v,
        };
        match apply_since(held, &answer, author) {
            Err(e) => return Err(e),
            Ok(v) => v,
        }
    } else {
        return Err(WireError::UnknownTag);
    };
    let manifest = match MountManifest::decode(next.manifest.as_slice()) {
        Err(e) => return Err(e),
        Ok(m) => m,
    };
    *held = next;
    Ok(manifest)
}

/// A frame never moves a consumer to an older version.
pub proof fn law_frames_never_roll_back(
    held: SignedView,
    kind: u8,
    payload: Seq<u8>,
    author: Option<Seq<u8>>,
)
    ensures
        watch_outcome(held, kind, payload, author) matches Ok((next, _)) ==> next.version
            >= held.version,
{
}

/// On a signed share a frame is taken only where the creator signed exactly the
/// bytes and the version that come out of it, deltas included.
pub proof fn law_only_the_creator_moves_a_signed_share(
    held: SignedView,
    kind: u8,
    payload: Seq<u8>,
    key: Seq<u8>,
)
    ensures
        watch_outcome(held, kind, payload, Some(key)) matches Ok((next, m)) ==> {
            &&& crate::authorship::manifest_signed(
                key,
                next.version,
                next.manifest,
                next.signature,
            )
            &&& manifest_of(next.manifest) == Ok::<ManifestView, WireError>(m)
        },
{
}

/// An answer with no deltas leads to the manifest held, under the target
/// version: the deltas alone change the tree.
pub proof fn law_no_deltas_keep_the_tree(held: SignedView, answer: ManifestSinceView)
    requires
        answer.deltas.len() == 0,
        answer.target_version >= held.version,
        manifest_of(held.manifest) is Ok,
    ensures
        since_outcome(held, answer, None) matches Ok(next) && next.manifest == held.manifest
            && next.version == answer.target_version,
{
    crate::manifest::law_manifest_canonical(held.manifest);
}

/// A chain of deltas leads where its parts lead one after the other, so a
/// consumer that catches up in steps ends where one that catches up at once does.
pub proof fn law_replay_composes(m: ManifestView, first: Seq<Seq<u8>>, second: Seq<Seq<u8>>)
    ensures
        replayed(m, first + second) == (match replayed(m, first) {
            Err(e) => Err(e),
            Ok(mid) => replayed(mid, second),
        }),
    decreases first.len(),
{
    if first.len() == 0 {
        assert(first + second =~= second);
    } else {
        assert((first + second)[0] == first[0]);
        assert((first + second).skip(1) =~= first.skip(1) + second);
        if let Ok(d) = delta_of(first[0]) {
            law_replay_composes(applied(m, d), first.skip(1), second);
        }
    }
}

/// Whether listings are the ones a chain of deltas goes through: each is the one
/// before it with the next delta applied.
pub open spec fn goes_through(
    deltas: Seq<Seq<u8>>,
    changes: Seq<DeltaView>,
    listings: Seq<ManifestView>,
) -> bool {
    &&& changes.len() == deltas.len()
    &&& listings.len() == deltas.len() + 1
    &&& forall|i: int|
        0 <= i < deltas.len() ==> delta_of(#[trigger] deltas[i]) == Ok::<DeltaView, WireError>(
            changes[i],
        ) && listings[i + 1] == applied(listings[i], changes[i])
}

proof fn lemma_goes_through(
    deltas: Seq<Seq<u8>>,
    changes: Seq<DeltaView>,
    listings: Seq<ManifestView>,
)
    requires
        goes_through(deltas, changes, listings),
    ensures
        replayed(listings[0], deltas) == Ok::<ManifestView, WireError>(listings.last()),
    decreases deltas.len(),
{
    if deltas.len() > 0 {
        let rest = deltas.skip(1);
        assert(delta_of(deltas[0]) == Ok::<DeltaView, WireError>(changes[0]));
        assert forall|i: int| 0 <= i < rest.len() implies delta_of(#[trigger] rest[i]) == Ok::<
            DeltaView,
            WireError,
        >(changes.skip(1)[i]) && listings.skip(1)[i + 1] == applied(
            listings.skip(1)[i],
            changes.skip(1)[i],
        ) by {
            assert(rest[i] == deltas[i + 1]);
        }
        lemma_goes_through(rest, changes.skip(1), listings.skip(1));
    }
}

/// A chain of deltas is taken as far as it goes: every one is applied, in order,
/// and what is held then is the last listing, under the version and the signature
/// of the answer. It is taken whenever the version is not older and, where a key
/// is given, the creator signed that listing.
pub proof fn law_a_chain_of_deltas_is_taken_whole(
    held: SignedView,
    answer: ManifestSinceView,
    author: Option<Seq<u8>>,
    changes: Seq<DeltaView>,
    listings: Seq<ManifestView>,
)
    requires
        answer.target_version >= held.version,
        goes_through(answer.deltas, changes, listings),
        manifest_of(held.manifest) == Ok::<ManifestView, WireError>(listings[0]),
        author matches Some(key) ==> ed25519_verifies(
            key,
            signed_bytes(answer.target_version, manifest_bytes(listings.last())),
            answer.signature,
        ),
    ensures
        since_outcome(held, answer, author) == Ok::<SignedView, WireError>(
            SignedView {
                version: answer.target_version,
                signature: answer.signature,
                manifest: manifest_bytes(listings.last()),
            },
        ),
{
    lemma_goes_through(answer.deltas, changes, listings);
}

/// A frame that can be read is taken: a listing as it was sealed, and a chain of
/// deltas as it leads. What is held then is what the frame carried, and what is
/// shown is its listing.
pub proof fn law_a_good_frame_is_taken(
    held: SignedView,
    payload: Seq<u8>,
    author: Option<Seq<u8>>,
    offered: SignedView,
    listing: ManifestView,
)
    requires
        offered.version >= held.version,
        manifest_of(offered.manifest) == Ok::<ManifestView, WireError>(listing),
        author matches Some(key) ==> ed25519_verifies(
            key,
            signed_bytes(offered.version, offered.manifest),
            offered.signature,
        ),
    ensures
        signed_manifest_of(payload) == Ok::<SignedView, WireError>(offered) ==> watch_outcome(
            held,
            WATCH_FRAME_MANIFEST,
            payload,
            author,
        ) == Ok::<(SignedView, ManifestView), WireError>((offered, listing)),
        (since_of(payload) matches Ok(answer) && since_outcome(held, answer, author) == Ok::<
            SignedView,
            WireError,
        >(offered)) ==> watch_outcome(held, WATCH_FRAME_DELTA, payload, author) == Ok::<
            (SignedView, ManifestView),
            WireError,
        >((offered, listing)),
{
}

/// A frame of any other kind is refused.
pub proof fn law_an_unknown_frame_is_refused(
    held: SignedView,
    kind: u8,
    payload: Seq<u8>,
    author: Option<Seq<u8>>,
)
    requires
        kind != WATCH_FRAME_MANIFEST,
        kind != WATCH_FRAME_DELTA,
    ensures
        watch_outcome(held, kind, payload, author) is Err,
{
}

/// What a frame leads to is what it carries: after a listing, that listing and
/// its version and signature; after deltas, what they make of the listing held.
pub proof fn law_a_frame_leads_where_it_says(
    held: SignedView,
    kind: u8,
    payload: Seq<u8>,
    author: Option<Seq<u8>>,
)
    ensures
        watch_outcome(held, kind, payload, author) matches Ok((next, listing)) ==> {
            &&& manifest_of(next.manifest) == Ok::<ManifestView, WireError>(listing)
            &&& kind == WATCH_FRAME_MANIFEST ==> signed_manifest_of(payload) == Ok::<
                SignedView,
                WireError,
            >(next)
            &&& kind == WATCH_FRAME_DELTA ==> {
                &&& since_of(payload) matches Ok(answer) && next.version == answer.target_version
                    && next.signature == answer.signature && (manifest_of(held.manifest) matches Ok(
                    start,
                ) && replayed(start, answer.deltas) matches Ok(end) && next.manifest
                    == manifest_bytes(end))
            }
        },
{
}

/// Frames are turned down for this machine's sake only where they have to be: a
/// listing never is, and deltas only where a position cannot be addressed or the
/// listing they lead to cannot be encoded.
pub proof fn law_a_frame_that_can_be_held_fits(
    held: SignedView,
    payload: Seq<u8>,
    changes: Seq<DeltaView>,
    listings: Seq<ManifestView>,
)
    ensures
        frame_fits(held, WATCH_FRAME_MANIFEST, payload),
        (since_of(payload) matches Ok(answer) && {
            &&& goes_through(answer.deltas, changes, listings)
            &&& manifest_of(held.manifest) == Ok::<ManifestView, WireError>(listings[0])
            &&& manifest_fits(listings.last())
            &&& forall|i: int, k: int|
                0 <= i < changes.len() && 0 <= k < changes[i].files_upserted.len() ==> (
                #[trigger] changes[i].files_upserted[k]).0 < usize::MAX
        }) ==> frame_fits(held, WATCH_FRAME_DELTA, payload),
{
    if let Ok(answer) = since_of(payload) {
        if goes_through(answer.deltas, changes, listings) && manifest_of(held.manifest) == Ok::<
            ManifestView,
            WireError,
        >(listings[0]) && (forall|i: int, k: int|
            0 <= i < changes.len() && 0 <= k < changes[i].files_upserted.len() ==> (
            #[trigger] changes[i].files_upserted[k]).0 < usize::MAX) {
            lemma_goes_through(answer.deltas, changes, listings);
            assert forall|i: int| 0 <= i < answer.deltas.len() implies (delta_of(
                #[trigger] answer.deltas[i],
            ) matches Ok(d) ==> slots_addressable(d)) by {
                assert forall|k: int| 0 <= k < changes[i].files_upserted.len() implies (
                #[trigger] changes[i].files_upserted[k]).0 < usize::MAX by {}
            }
        }
    }
}

} // verus!
