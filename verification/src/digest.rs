//! SHA-256 over domain-separated input: the tree fingerprint and the mesh key.
use crate::codec::put_bytes;
use crate::manifest::{manifest_bytes, manifest_fits, MountManifest};
use crate::text::{hex, hex_text, is_hex};
use vstd::prelude::*;
use vstd::slice::slice_subrange;

verus! {

/// The SHA-256 digest of a message.
pub uninterp spec fn sha256(message: Seq<u8>) -> Seq<u8>;

/// `sha2::Sha256::digest`: the digest is a function of the message.
#[verifier::external_body]
fn sha256_of(message: &[u8]) -> (digest: [u8; 32])
    ensures
        digest@ == sha256(message@),
{
    <sha2::Sha256 as sha2::Digest>::digest(message).into()
}

/// Domain separator of a tree fingerprint: `agent-share/tree/v1`.
pub const TREE_LABEL: &'static [u8; 19] = &[
    97u8, 103u8, 101u8, 110u8, 116u8, 45u8, 115u8, 104u8, 97u8, 114u8, 101u8, 47u8,
    116u8, 114u8, 101u8, 101u8, 47u8, 118u8, 49u8,
];

/// Domain separator of a mesh key: `agent-share/mesh/v1`.
pub const MESH_LABEL: &'static [u8; 19] = &[
    97u8, 103u8, 101u8, 110u8, 116u8, 45u8, 115u8, 104u8, 97u8, 114u8, 101u8, 47u8,
    109u8, 101u8, 115u8, 104u8, 47u8, 118u8, 49u8,
];

/// The fingerprint of a tree: the first eight digest bytes of the labelled
/// manifest bytes, in hex.
pub open spec fn fingerprint(manifest: Seq<u8>) -> Seq<char> {
    hex(sha256(TREE_LABEL@ + manifest).take(8))
}

/// The fingerprint of the manifest bytes a producer serves.
#[must_use]
pub fn manifest_fingerprint(manifest_bytes: &[u8]) -> (text: String)
    ensures
        text@ == fingerprint(manifest_bytes@),
        text@.len() == 16,
        is_hex(text@),
{
    let mut message: Vec<u8> = Vec::new();
    put_bytes(&mut message, TREE_LABEL.as_slice());
    put_bytes(&mut message, manifest_bytes);
    assert(message@ =~= TREE_LABEL@ + manifest_bytes@);
    let digest: [u8; 32] = sha256_of(message.as_slice());
    let head = slice_subrange(digest.as_slice(), 0, 8);
    assert(head@ =~= digest@.take(8));
    hex_text(head)
}

impl MountManifest {
    /// The fingerprint of this listing: that of its encoding.
    #[must_use]
    pub fn fingerprint(&self) -> (text: String)
        requires
            manifest_fits(self@),
        ensures
            text@ == fingerprint(manifest_bytes(self@)),
            text@.len() == 16,
            is_hex(text@),
    {
        let bytes = self.encode();
        manifest_fingerprint(bytes.as_slice())
    }
}

/// The key of the mesh that every holder of a share token meets on: the digest
/// of the labelled token, in hex.
pub open spec fn mesh_key(token: Seq<u8>) -> Seq<char> {
    hex(sha256(MESH_LABEL@ + token))
}

#[must_use]
pub fn share_mesh_key(token: &[u8; 32]) -> (text: String)
    ensures
        text@ == mesh_key(token@),
        text@.len() == 64,
        is_hex(text@),
{
    let mut message: Vec<u8> = Vec::new();
    put_bytes(&mut message, MESH_LABEL.as_slice());
    put_bytes(&mut message, token.as_slice());
    assert(message@ =~= MESH_LABEL@ + token@);
    let digest: [u8; 32] = sha256_of(message.as_slice());
    hex_text(digest.as_slice())
}

/// A tree's fingerprint is the start of the digest of its labelled listing, and a
/// share's mesh key the whole digest of its labelled token, both in hex.
pub proof fn law_digests_are_labelled(manifest: Seq<u8>, token: Seq<u8>, i: int)
    ensures
        fingerprint(manifest) == hex(sha256(TREE_LABEL@ + manifest).subrange(0, 8)),
        mesh_key(token) == hex(sha256(MESH_LABEL@ + token)),
        TREE_LABEL@.len() == "agent-share/tree/v1"@.len(),
        0 <= i < TREE_LABEL@.len() ==> TREE_LABEL@[i] == "agent-share/tree/v1"@[i] as int,
        MESH_LABEL@.len() == "agent-share/mesh/v1"@.len(),
        0 <= i < MESH_LABEL@.len() ==> MESH_LABEL@[i] == "agent-share/mesh/v1"@[i] as int,
{
    reveal_strlit("agent-share/tree/v1");
    reveal_strlit("agent-share/mesh/v1");
    assert(sha256(TREE_LABEL@ + manifest).take(8) =~= sha256(TREE_LABEL@ + manifest).subrange(
        0,
        8,
    ));
}

} // verus!
