//! Who may change a share: the creator's signature over each manifest version.
//!
//! The version is inside what is signed, so a manifest cannot be relabelled,
//! and a peer never takes a version below one it has already seen.
use crate::codec::{
    get_array64, get_u64, lemma_concat_assoc, lemma_u64_le, lemma_u64_of, put_bytes, put_u64,
    u64_le, u64_of,
};
use crate::error::WireError;
use vstd::prelude::*;
use vstd::slice::{slice_subrange, slice_to_vec};

verus! {

/// Domain separator of a manifest signature: `agent-share/manifest/v1`.
pub const CONTEXT: &'static [u8; 23] = &[
    97u8, 103u8, 101u8, 110u8, 116u8, 45u8, 115u8, 104u8, 97u8, 114u8, 101u8, 47u8,
    109u8, 97u8, 110u8, 105u8, 102u8, 101u8, 115u8, 116u8, 47u8, 118u8, 49u8,
];

/// Bytes of an ed25519 signature.
pub const SIGNATURE_LEN: usize = 64;

/// Bytes of an ed25519 public key.
pub const AUTHOR_KEY_LEN: usize = 32;

/// Whether `key` encodes a point an ed25519 public key may be.
pub uninterp spec fn ed25519_point(key: Seq<u8>) -> bool;

/// The public half of an ed25519 secret key.
pub uninterp spec fn ed25519_public(secret: Seq<u8>) -> Seq<u8>;

/// The ed25519 signature of a message under a secret key.
pub uninterp spec fn ed25519_signature(secret: Seq<u8>, message: Seq<u8>) -> Seq<u8>;

/// Whether a signature over a message verifies under a public key.
pub uninterp spec fn ed25519_verifies(
    key: Seq<u8>,
    message: Seq<u8>,
    signature: Seq<u8>,
) -> bool;

/// `iroh_base::PublicKey::from_bytes` takes exactly the encodings of curve
/// points; which bytes those are is left to the crate.
#[verifier::external_body]
fn is_point(key: &[u8; 32]) -> (ok: bool)
    ensures
        ok == ed25519_point(key@),
{
    iroh_base::PublicKey::from_bytes(key).is_ok()
}

/// `iroh_base::SecretKey::public`: the public key is a function of the secret,
/// and it is a valid key.
#[verifier::external_body]
fn public_of(secret: &[u8; 32]) -> (key: [u8; 32])
    ensures
        key@ == ed25519_public(secret@),
        ed25519_point(key@),
{
    *iroh_base::SecretKey::from_bytes(secret).public().as_bytes()
}

/// `iroh_base::SecretKey::sign`: the signature is a function of the secret and
/// the message, and it verifies under the secret's own public key.
#[verifier::external_body]
fn sign_with(secret: &[u8; 32], message: &[u8]) -> (signature: [u8; 64])
    ensures
        signature@ == ed25519_signature(secret@, message@),
        ed25519_verifies(ed25519_public(secret@), message@, signature@),
{
    iroh_base::SecretKey::from_bytes(secret).sign(message).to_bytes()
}

/// `iroh_base::PublicKey::verify`: whether the signature verifies is a function
/// of the key, the message and the signature. Bytes that are no key verify
/// nothing.
#[verifier::external_body]
fn verify_with(key: &[u8; 32], message: &[u8], signature: &[u8; 64]) -> (ok: bool)
    ensures
        ok == ed25519_verifies(key@, message@, signature@),
{
    let signature = iroh_base::Signature::from_bytes(signature);
    match iroh_base::PublicKey::from_bytes(key) {
        Ok(key) => key.verify(message, &signature).is_ok(),
        Err(_) => false,
    }
}

/// The creator's public key.
#[derive(Debug, Clone, Copy, PartialEq, Eq)]
pub struct PublicKey {
    bytes: [u8; 32],
}

/// The creator's secret key.
#[derive(Clone, Copy)]
pub struct SecretKey {
    bytes: [u8; 32],
}

impl View for PublicKey {
    type V = Seq<u8>;

    closed spec fn view(&self) -> Seq<u8> {
        self.bytes@
    }
}

impl View for SecretKey {
    type V = Seq<u8>;

    closed spec fn view(&self) -> Seq<u8> {
        self.bytes@
    }
}

impl PublicKey {
    /// # Errors
    /// The bytes are not a public key.
    pub fn from_bytes(bytes: &[u8; 32]) -> (key: Result<Self, WireError>)
        ensures
            match key {
                Ok(k) => ed25519_point(bytes@) && k@ == bytes@,
                Err(e) => e == WireError::BadKey && !ed25519_point(bytes@),
            },
    {
        if is_point(bytes) {
            Ok(PublicKey { bytes: *bytes })
        } else {
            Err(WireError::BadKey)
        }
    }

    pub fn as_bytes(&self) -> (bytes: &[u8; 32])
        ensures
            bytes@ == self@,
    {
        &self.bytes
    }
}

impl SecretKey {
    pub fn from_bytes(bytes: &[u8; 32]) -> (key: Self)
        ensures
            key@ == bytes@,
    {
        SecretKey { bytes: *bytes }
    }

    pub fn public(&self) -> (key: PublicKey)
        ensures
            key@ == ed25519_public(self@),
            ed25519_point(key@),
    {
        PublicKey { bytes: public_of(&self.bytes) }
    }
}

/// What the creator signs: the context, the version, and the manifest.
pub open spec fn signed_bytes(version: u64, manifest: Seq<u8>) -> Seq<u8> {
    CONTEXT@ + u64_le(version) + manifest
}

/// Two signed payloads are equal only for one version and one manifest, so a
/// signature over one version says nothing of another.
pub proof fn law_signed_payload_binds_version(v1: u64, m1: Seq<u8>, v2: u64, m2: Seq<u8>)
    requires
        signed_bytes(v1, m1) == signed_bytes(v2, m2),
    ensures
        v1 == v2,
        m1 == m2,
{
    let a = signed_bytes(v1, m1);
    let b = signed_bytes(v2, m2);
    let n = CONTEXT@.len() as int;
    assert(a.skip(n) =~= u64_le(v1) + m1);
    assert(b.skip(n) =~= u64_le(v2) + m2);
    lemma_u64_le(v1, m1);
    lemma_u64_le(v2, m2);
}

fn signed_payload(version: u64, manifest: &[u8]) -> (out: Vec<u8>)
    ensures
        out@ == signed_bytes(version, manifest@),
{
    let mut out: Vec<u8> = Vec::new();
    put_bytes(&mut out, CONTEXT.as_slice());
    put_u64(&mut out, version);
    put_bytes(&mut out, manifest);
    assert(out@ =~= signed_bytes(version, manifest@));
    out
}

/// Whether `key` signed `manifest` at `version`.
pub open spec fn manifest_signed(
    key: Seq<u8>,
    version: u64,
    manifest: Seq<u8>,
    signature: Seq<u8>,
) -> bool {
    ed25519_verifies(key, signed_bytes(version, manifest), signature)
}

/// Signs a manifest version as the share's creator. What it returns verifies
/// under the creator's public key.
#[must_use]
pub fn sign_manifest(author: &SecretKey, version: u64, manifest: &[u8]) -> (signature: [u8; 64])
    ensures
        signature@ == ed25519_signature(author@, signed_bytes(version, manifest@)),
        manifest_signed(ed25519_public(author@), version, manifest@, signature@),
{
    let payload = signed_payload(version, manifest);
    sign_with(&author.bytes, payload.as_slice())
}

/// # Errors
/// The signature is not `author`'s over this version and manifest.
pub fn verify_manifest(
    author: &PublicKey,
    version: u64,
    manifest: &[u8],
    signature: &[u8; 64],
) -> (out: Result<(), WireError>)
    ensures
        out == (if manifest_signed(author@, version, manifest@, signature@) {
            Ok::<(), WireError>(())
        } else {
            Err(WireError::BadSignature)
        }),
{
    let payload = signed_payload(version, manifest);
    if verify_with(&author.bytes, payload.as_slice(), signature) {
        Ok(())
    } else {
        Err(WireError::BadSignature)
    }
}

/// A manifest and the proof that its creator published it.
#[derive(Debug, Clone, PartialEq, Eq)]
pub struct SignedManifest {
    /// Monotonic, and inside the signature.
    pub version: u64,
    pub signature: [u8; 64],
    /// The creator's manifest bytes, verbatim.
    pub manifest: Vec<u8>,
}

pub struct SignedView {
    pub version: u64,
    pub signature: Seq<u8>,
    pub manifest: Seq<u8>,
}

impl View for SignedManifest {
    type V = SignedView;

    open spec fn view(&self) -> SignedView {
        SignedView {
            version: self.version,
            signature: self.signature@,
            manifest: self.manifest@,
        }
    }
}

/// Wire layout: `version(u64) ‖ signature(64) ‖ manifest`.
pub open spec fn signed_manifest_bytes(v: SignedView) -> Seq<u8> {
    u64_le(v.version) + v.signature + v.manifest
}

pub open spec fn signed_manifest_of(body: Seq<u8>) -> Result<SignedView, WireError> {
    if body.len() < 72 {
        Err(WireError::Truncated)
    } else {
        Ok(
            SignedView {
                version: u64_of(body),
                signature: body.subrange(8, 72),
                manifest: body.skip(72),
            },
        )
    }
}

/// Whether `offered` is worth taking from a peer that has seen version `seen`.
pub open spec fn acceptance(offered: SignedView, author: Seq<u8>, seen: u64) -> Result<
    (),
    WireError,
> {
    if offered.version < seen {
        Err(WireError::Rollback)
    } else if manifest_signed(author, offered.version, offered.manifest, offered.signature) {
        Ok(())
    } else {
        Err(WireError::BadSignature)
    }
}

impl SignedManifest {
    #[must_use]
    pub fn encode(&self) -> (out: Vec<u8>)
        ensures
            out@ == signed_manifest_bytes(self@),
    {
        let mut out: Vec<u8> = Vec::new();
        put_u64(&mut out, self.version);
        put_bytes(&mut out, self.signature.as_slice());
        put_bytes(&mut out, self.manifest.as_slice());
        assert(out@ =~= signed_manifest_bytes(self@));
        out
    }

    /// # Errors
    /// The body is shorter than version and signature.
    pub fn decode(body: &[u8]) -> (out: Result<Self, WireError>)
        ensures
            match signed_manifest_of(body@) {
                Err(e) => out == Err::<Self, WireError>(e),
                Ok(v) => out is Ok && out->Ok_0@ == v,
            },
    {
        if body.len() < 72 {
            return Err(WireError::Truncated);
        }
        let version: u64 = get_u64(body);
        let behind = slice_subrange(body, 8, body.len());
        let signature: [u8; 64] = get_array64(behind);
        assert(behind@.take(64) =~= body@.subrange(8, 72));
        let manifest = slice_to_vec(slice_subrange(body, 72, body.len()));
        assert(manifest@ =~= body@.skip(72));
        Ok(SignedManifest { version, signature, manifest })
    }

    /// Whether this is what `author` published, at a version worth taking.
    /// `seen` is the highest version already accepted: equal is taken, lower is
    /// not.
    ///
    /// # Errors
    /// The version went backwards, or the signature does not verify.
    pub fn accept(&self, author: &PublicKey, seen: u64) -> (out: Result<(), WireError>)
        ensures
            out == acceptance(self@, author@, seen),
    {
        if self.version < seen {
            return Err(WireError::Rollback);
        }
        verify_manifest(author, self.version, self.manifest.as_slice(), &self.signature)
    }
}

/// A signed manifest reads back as what was encoded, and bytes that decode are
/// the encoding of what they decode to.
pub proof fn law_signed_manifest_round_trip(v: SignedView, body: Seq<u8>)
    requires
        v.signature.len() == 64,
    ensures
        signed_manifest_of(signed_manifest_bytes(v)) == Ok::<SignedView, WireError>(v),
        signed_manifest_of(body) matches Ok(w) ==> signed_manifest_bytes(w) == body,
{
    let bytes = signed_manifest_bytes(v);
    lemma_concat_assoc(u64_le(v.version), v.signature, v.manifest);
    lemma_u64_le(v.version, v.signature + v.manifest);
    assert(bytes.subrange(8, 72) =~= v.signature);
    assert(bytes.skip(72) =~= v.manifest);
    if let Ok(w) = signed_manifest_of(body) {
        lemma_u64_of(body);
        assert(body.skip(8) =~= w.signature + w.manifest);
        lemma_concat_assoc(u64_le(w.version), w.signature, w.manifest);
    }
}

/// What the creator signs at a version, every peer that has not seen a later one
/// accepts.
pub proof fn law_creators_manifest_is_accepted(secret: Seq<u8>, v: SignedView, seen: u64)
    requires
        v.version >= seen,
        manifest_signed(ed25519_public(secret), v.version, v.manifest, v.signature),
    ensures
        acceptance(v, ed25519_public(secret), seen) == Ok::<(), WireError>(()),
{
}

/// A version below one already seen is refused, whoever signed it.
pub proof fn law_rollback_is_refused(v: SignedView, author: Seq<u8>, seen: u64)
    requires
        v.version < seen,
    ensures
        acceptance(v, author, seen) == Err::<(), WireError>(WireError::Rollback),
{
}

/// A manifest is accepted exactly where it is no older than what was seen and its
/// signature is the author's over the context, its version in eight bytes, and its
/// own bytes.
pub proof fn law_acceptance_is_version_and_signature(v: SignedView, author: Seq<u8>, seen: u64)
    ensures
        acceptance(v, author, seen) is Ok <==> v.version >= seen && ed25519_verifies(
            author,
            CONTEXT@ + u64_le(v.version) + v.manifest,
            v.signature,
        ),
        v.version >= seen && acceptance(v, author, seen) is Err ==> acceptance(v, author, seen)
            == Err::<(), WireError>(WireError::BadSignature),
{
}

/// An envelope is its version in eight bytes, sixty-four bytes of signature, and the
/// listing; anything shorter than the first two is refused.
pub proof fn law_an_envelope_is_laid_out_in_order(v: SignedView, body: Seq<u8>)
    requires
        v.signature.len() == 64,
    ensures
        ({
            let bytes = signed_manifest_bytes(v);
            &&& bytes.len() == 72 + v.manifest.len()
            &&& bytes.subrange(0, 8) == u64_le(v.version)
            &&& bytes.subrange(8, 72) == v.signature
            &&& bytes.skip(72) == v.manifest
        }),
        body.len() < 72 ==> signed_manifest_of(body) == Err::<SignedView, WireError>(
            WireError::Truncated,
        ),
        body.len() >= 72 ==> signed_manifest_of(body) is Ok,
{
    let bytes = signed_manifest_bytes(v);
    lemma_u64_le(v.version, Seq::empty());
    assert(bytes.subrange(0, 8) =~= u64_le(v.version));
    assert(bytes.subrange(8, 72) =~= v.signature);
    assert(bytes.skip(72) =~= v.manifest);
}

/// What is signed starts with the context and holds the version and the listing.
pub proof fn law_a_signature_covers_version_and_listing(version: u64, manifest: Seq<u8>)
    ensures
        ({
            let n = CONTEXT@.len() as int;
            let bytes = signed_bytes(version, manifest);
            &&& bytes.len() == n + 8 + manifest.len()
            &&& bytes.subrange(0, n) == CONTEXT@
            &&& bytes.subrange(n, n + 8) == u64_le(version)
            &&& bytes.skip(n + 8) == manifest
        }),
        forall|key: Seq<u8>, signature: Seq<u8>|
            #![trigger manifest_signed(key, version, manifest, signature)]
            manifest_signed(key, version, manifest, signature) <==> ed25519_verifies(
                key,
                signed_bytes(version, manifest),
                signature,
            ),
{
    let n = CONTEXT@.len() as int;
    let bytes = signed_bytes(version, manifest);
    lemma_u64_le(version, Seq::empty());
    assert(bytes.subrange(0, n) =~= CONTEXT@);
    assert(bytes.subrange(n, n + 8) =~= u64_le(version));
    assert(bytes.skip(n + 8) =~= manifest);
}

} // verus!
