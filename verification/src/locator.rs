//! Finding a share's listing again in a tab's own storage.
use crate::authorship::{signed_manifest_of, SignedManifest, SignedView};
use crate::digest::{fingerprint, manifest_fingerprint};
use crate::json::{
    as_text, as_u64, insert, json_of, member, new_map, object, parse, render, text_member_of,
    text_value, u64_member_of, u64_value,
};
use crate::manifest::{manifest_of, ManifestView, MountManifest};
use crate::text::text_eq;
use vstd::prelude::*;

verus! {

/// The name the listing is stored under. No file can have it: a path holds no
/// NUL.
pub const MANIFEST_STORE_KEY: &'static str = "\0manifest";

/// Where a listing is stored, and which.
#[derive(Debug, Clone, PartialEq, Eq)]
pub struct Locator {
    /// How many bytes were stored.
    pub size: u64,
    /// The fingerprint of the listing.
    pub tree: String,
}

/// What a locator's text says. Its size has to be one a read can ask for.
pub open spec fn located(raw: Seq<char>) -> Option<(u64, Seq<char>)> {
    match json_of(raw) {
        None => None,
        Some(value) => match (u64_member_of(value, "size"@), text_member_of(value, "tree"@)) {
            (Some(size), Some(tree)) => if size <= u32::MAX {
                Some((size, tree))
            } else {
                None
            },
            _ => None,
        },
    }
}

/// The text of a locator.
#[must_use]
pub fn write_locator(size: u32, tree: &str) -> (raw: String)
    ensures
        located(raw@) == Some((size as u64, tree@)),
{
    proof {
        reveal_strlit("size");
        reveal_strlit("tree");
        assert("size"@[0] != "tree"@[0]);
    }
    let mut map = new_map();
    insert(&mut map, "size", u64_value(size as u64));
    insert(&mut map, "tree", text_value(tree));
    let value = object(map);
    let raw = render(&value);
    assert(u64_member_of(value, "size"@) == Some(size as u64));
    assert(text_member_of(value, "tree"@) == Some(tree@));
    raw
}

/// Reads a locator.
#[must_use]
pub fn read_locator(raw: &str) -> (out: Option<Locator>)
    ensures
        match located(raw@) {
            None => out is None,
            Some((size, tree)) => out is Some && out->Some_0.size == size && out->Some_0.tree@
                == tree,
        },
{
    let value = match parse(raw) {
        None => return None,
        Some(value) => value,
    };
    let size: u64 = match member(&value, "size") {
        None => return None,
        Some(size) => match as_u64(size) {
            None => return None,
            Some(size) => size,
        },
    };
    let tree = match member(&value, "tree") {
        None => return None,
        Some(tree) => match as_text(tree) {
            None => return None,
            Some(tree) => tree,
        },
    };
    if size > u32::MAX as u64 {
        return None;
    }
    Some(Locator { size, tree })
}

/// What stored bytes are worth: an envelope around the listing that the locator
/// named, or nothing.
pub open spec fn restored(bytes: Seq<u8>, tree: Seq<char>) -> Option<(SignedView, ManifestView)> {
    match signed_manifest_of(bytes) {
        Err(_) => None,
        Ok(signed) => if fingerprint(signed.manifest) != tree {
            None
        } else {
            match manifest_of(signed.manifest) {
                Err(_) => None,
                Ok(m) => Some((signed, m)),
            }
        },
    }
}

/// Checks stored bytes against the locator that named them.
#[must_use]
pub fn check_persisted(bytes: &[u8], tree: &str) -> (out: Option<(SignedManifest, MountManifest)>)
    ensures
        match restored(bytes@, tree@) {
            None => out is None,
            Some((signed, m)) => out is Some && out->Some_0.0@ == signed && out->Some_0.1@ == m,
        },
{
    let signed = match SignedManifest::decode(bytes) {
        Err(_) => return None,
        Ok(signed) => signed,
    };
    let actual = manifest_fingerprint(signed.manifest.as_slice());
    if !text_eq(actual.as_str(), tree) {
        return None;
    }
    match MountManifest::decode(signed.manifest.as_slice()) {
        Err(_) => None,
        Ok(manifest) => Some((signed, manifest)),
    }
}

/// What was stored of a listing comes back: its locator names it, and the bytes
/// pass the locator's check.
pub proof fn law_a_stored_listing_is_restored(v: SignedView, m: ManifestView)
    requires
        v.signature.len() == 64,
        manifest_of(v.manifest) == Ok::<ManifestView, crate::error::WireError>(m),
    ensures
        restored(
            crate::authorship::signed_manifest_bytes(v),
            fingerprint(v.manifest),
        ) == Some((v, m)),
{
    crate::authorship::law_signed_manifest_round_trip(
        v,
        crate::authorship::signed_manifest_bytes(v),
    );
}

/// A locator is read from any text that is JSON and has a size that fits thirty-two
/// bits and a tree, and from no other.
pub proof fn law_a_locator_has_a_size_and_a_tree(raw: Seq<char>, size: u64, tree: Seq<char>)
    ensures
        located(raw) == Some((size, tree)) <==> (json_of(raw) matches Some(value) && u64_member_of(
            value,
            "size"@,
        ) == Some(size) && text_member_of(value, "tree"@) == Some(tree) && size
            <= 4_294_967_295),
{
}

/// Stored bytes are used where they are an envelope around a listing of the tree
/// that the locator named, and nowhere else.
pub proof fn law_only_the_located_tree_is_restored(
    bytes: Seq<u8>,
    tree: Seq<char>,
    signed: SignedView,
    m: ManifestView,
)
    ensures
        restored(bytes, tree) == Some((signed, m)) <==> signed_manifest_of(bytes) == Ok::<
            SignedView,
            crate::error::WireError,
        >(signed) && manifest_of(signed.manifest) == Ok::<ManifestView, crate::error::WireError>(m)
            && fingerprint(signed.manifest) == tree,
{
}

} // verus!
