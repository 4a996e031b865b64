//! The peers that served a share before, and where a share's records are kept.
use crate::digest::{mesh_key, share_mesh_key};
use crate::text::{chars_of, text_eq, text_of};
use vstd::prelude::*;
use vstd::slice::slice_subrange;

verus! {

/// The most peers remembered.
pub const KNOWN_SEEDERS_CAP: usize = 4;

/// How long a peer is remembered, in milliseconds.
pub const KNOWN_SEEDER_TTL_MS: u64 = 86_400_000;

/// A peer that was vetted and served the share.
#[derive(Debug, Clone, PartialEq, Eq)]
pub struct KnownSeeder {
    pub endpoint: String,
    /// The fingerprint of the tree it served; a redial holds it to that.
    pub tree: String,
    pub seen_ms: u64,
}

pub struct KnownView {
    pub endpoint: Seq<char>,
    pub tree: Seq<char>,
    pub seen_ms: u64,
}

impl View for KnownSeeder {
    type V = KnownView;

    open spec fn view(&self) -> KnownView {
        KnownView { endpoint: self.endpoint@, tree: self.tree@, seen_ms: self.seen_ms }
    }
}

pub open spec fn known_views(s: Seq<KnownSeeder>) -> Seq<KnownView> {
    Seq::new(s.len(), |i: int| s[i]@)
}

/// Whether a record is still worth something at `now`.
pub open spec fn is_fresh(entry: KnownView, now: u64) -> bool {
    now - entry.seen_ms < KNOWN_SEEDER_TTL_MS
}

/// The records that are still worth something, in their order.
pub open spec fn fresh(list: Seq<KnownView>, now: u64) -> Seq<KnownView>
    decreases list.len(),
{
    if list.len() == 0 {
        Seq::empty()
    } else if is_fresh(list.last(), now) {
        fresh(list.drop_last(), now).push(list.last())
    } else {
        fresh(list.drop_last(), now)
    }
}

/// The records whose endpoint is none of these, in their order.
pub open spec fn others(list: Seq<KnownView>, endpoints: Seq<Seq<char>>) -> Seq<KnownView>
    decreases list.len(),
{
    if list.len() == 0 {
        Seq::empty()
    } else if endpoints.contains(list.last().endpoint) {
        others(list.drop_last(), endpoints)
    } else {
        others(list.drop_last(), endpoints).push(list.last())
    }
}

/// At most the first records that are kept.
pub open spec fn capped(list: Seq<KnownView>) -> Seq<KnownView> {
    if list.len() <= KNOWN_SEEDERS_CAP {
        list
    } else {
        list.take(KNOWN_SEEDERS_CAP as int)
    }
}

impl KnownSeeder {
    /// The same record again.
    pub fn copy(&self) -> (out: Self)
        ensures
            out@ == self@,
    {
        KnownSeeder {
            endpoint: self.endpoint.clone(),
            tree: self.tree.clone(),
            seen_ms: self.seen_ms,
        }
    }
}

fn cap(mut list: Vec<KnownSeeder>) -> (out: Vec<KnownSeeder>)
    ensures
        known_views(out@) == capped(known_views(list@)),
{
    let ghost before = list@;
    if list.len() > KNOWN_SEEDERS_CAP {
        list.truncate(KNOWN_SEEDERS_CAP);
    }
    assert(known_views(list@) =~= capped(known_views(before)));
    list
}

/// The records of a stored roster that still count. A roster that could not be
/// read counts as empty.
#[must_use]
pub fn decode_known_seeders(stored: Option<Vec<KnownSeeder>>, now: u64) -> (out: Vec<KnownSeeder>)
    ensures
        known_views(out@) == (match stored {
            None => Seq::empty(),
            Some(list) => capped(fresh(known_views(list@), now)),
        }),
{
    let mut out: Vec<KnownSeeder> = Vec::new();
    let list = match stored {
        None => {
            assert(known_views(out@) =~= Seq::<KnownView>::empty());
            return out;
        },
        Some(list) => list,
    };
    let ghost all = known_views(list@);
    assert(all.take(0) =~= Seq::empty());
    assert(known_views(out@) =~= Seq::<KnownView>::empty());
    let mut i: usize = 0;
    while i < list.len()
        invariant
            0 <= i <= list@.len(),
            all == known_views(list@),
            known_views(out@) == fresh(all.take(i as int), now),
        decreases list@.len() - i,
    {
        assert(all.take(i as int + 1).drop_last() =~= all.take(i as int));
        let entry = &list[i];
        if now < entry.seen_ms || now - entry.seen_ms < KNOWN_SEEDER_TTL_MS {
            let ghost before = known_views(out@);
            out.push(entry.copy());
            assert(known_views(out@) =~= before.push(all[i as int]));
        }
        i += 1;
    }
    assert(all.take(i as int) =~= all);
    cap(out)
}

fn without(list: &Vec<KnownSeeder>, endpoints: &[String]) -> (out: Vec<KnownSeeder>)
    ensures
        known_views(out@) == others(known_views(list@), texts(endpoints@)),
{
    let ghost all = known_views(list@);
    let mut out: Vec<KnownSeeder> = Vec::new();
    assert(all.take(0) =~= Seq::empty());
    assert(known_views(out@) =~= Seq::<KnownView>::empty());
    let mut i: usize = 0;
    while i < list.len()
        invariant
            0 <= i <= list@.len(),
            all == known_views(list@),
            known_views(out@) == others(all.take(i as int), texts(endpoints@)),
        decreases list@.len() - i,
    {
        assert(all.take(i as int + 1).drop_last() =~= all.take(i as int));
        if !holds_text(endpoints, list[i].endpoint.as_str()) {
            let ghost before = known_views(out@);
            out.push(list[i].copy());
            assert(known_views(out@) =~= before.push(all[i as int]));
        }
        i += 1;
    }
    assert(all.take(i as int) =~= all);
    out
}

pub open spec fn texts(s: Seq<String>) -> Seq<Seq<char>> {
    Seq::new(s.len(), |i: int| s[i]@)
}

/// Whether a text is in a list.
pub fn holds_text(list: &[String], text: &str) -> (has: bool)
    ensures
        has == texts(list@).contains(text@),
{
    let mut i: usize = 0;
    while i < list.len()
        invariant
            0 <= i <= list@.len(),
            forall|j: int| 0 <= j < i ==> (#[trigger] list@[j])@ != text@,
        decreases list@.len() - i,
    {
        if text_eq(list[i].as_str(), text) {
            assert(texts(list@)[i as int] == text@);
            return true;
        }
        i += 1;
    }
    proof {
        if texts(list@).contains(text@) {
            let k = choose|k: int| 0 <= k < texts(list@).len() && texts(list@)[k] == text@;
            assert(list@[k]@ == text@);
        }
    }
    false
}

/// The roster with a record in front: one record for each endpoint, newest
/// first, and no more than are kept.
#[must_use]
pub fn upsert_known_seeder(list: Vec<KnownSeeder>, entry: KnownSeeder) -> (out: Vec<KnownSeeder>)
    ensures
        known_views(out@) == capped(
            seq![entry@] + others(known_views(list@), seq![entry@.endpoint]),
        ),
{
    let ghost v = entry@;
    let mut own: Vec<String> = Vec::new();
    own.push(entry.endpoint.clone());
    assert(texts(own@) =~= seq![v.endpoint]);
    let mut out = without(&list, own.as_slice());
    let ghost rest = known_views(out@);
    out.insert(0, entry);
    assert(known_views(out@) =~= seq![v] + rest);
    cap(out)
}

/// The roster without endpoints that were dialled in vain.
#[must_use]
pub fn forget_known_seeders(list: Vec<KnownSeeder>, failed: &[String]) -> (out: Vec<KnownSeeder>)
    ensures
        known_views(out@) == others(known_views(list@), texts(failed@)),
{
    without(&list, failed)
}

proof fn lemma_others(list: Seq<KnownView>, endpoints: Seq<Seq<char>>, entry: KnownView)
    ensures
        others(list, endpoints).contains(entry) <==> list.contains(entry) && !endpoints.contains(
            entry.endpoint,
        ),
    decreases list.len(),
{
    if list.len() > 0 {
        let short = list.drop_last();
        let rest = others(short, endpoints);
        lemma_others(short, endpoints, entry);
        assert(list =~= short.push(list.last()));
        lemma_push_has(short, list.last(), entry);
        lemma_push_has(rest, list.last(), entry);
    }
}

proof fn lemma_push_has(s: Seq<KnownView>, x: KnownView, y: KnownView)
    ensures
        s.push(x).contains(y) == (s.contains(y) || x == y),
{
    let long = s.push(x);
    if s.contains(y) {
        let i = choose|i: int| 0 <= i < s.len() && s[i] == y;
        assert(long[i] == y);
    }
    assert(long[s.len() as int] == x);
    if long.contains(y) {
        let i = choose|i: int| 0 <= i < long.len() && long[i] == y;
        if i < s.len() {
            assert(s[i] == y);
        }
    }
}

/// A record that was just taken up stands first, and is the only one of its
/// endpoint.
pub proof fn law_a_new_record_is_first_and_alone(list: Seq<KnownView>, entry: KnownView)
    ensures
        ({
            let out = capped(seq![entry] + others(list, seq![entry.endpoint]));
            &&& out.len() > 0
            &&& out.len() <= KNOWN_SEEDERS_CAP
            &&& out[0] == entry
            &&& forall|i: int|
                0 < i < out.len() ==> (#[trigger] out[i]).endpoint != entry.endpoint
        }),
{
    let rest = others(list, seq![entry.endpoint]);
    let all = seq![entry] + rest;
    let out = capped(all);
    assert forall|i: int| 0 < i < out.len() implies (#[trigger] out[i]).endpoint
        != entry.endpoint by {
        assert(out[i] == rest[i - 1]);
        assert(rest.contains(out[i]));
        lemma_others(list, seq![entry.endpoint], out[i]);
        assert(seq![entry.endpoint][0] == entry.endpoint);
    }
}

/// What was dialled in vain is forgotten, and nothing else is.
pub proof fn law_only_the_failed_are_forgotten(
    list: Seq<KnownView>,
    failed: Seq<Seq<char>>,
    entry: KnownView,
)
    ensures
        others(list, failed).contains(entry) <==> list.contains(entry) && !failed.contains(
            entry.endpoint,
        ),
{
    lemma_others(list, failed, entry);
}

/// The part of a share's mesh key that names its records. The key is a one-way
/// digest of the token, so a name shows nothing of it.
pub open spec fn record_id(token: Seq<u8>) -> Seq<char> {
    mesh_key(token).take(16)
}

fn named_record(prefix: &str, token: &[u8; 32]) -> (name: String)
    ensures
        name@ == prefix@ + record_id(token@),
{
    let key = share_mesh_key(token);
    let chars = chars_of(key.as_str());
    let head = slice_subrange(chars.as_slice(), 0, 16);
    assert(head@ =~= record_id(token@));
    let mut name = prefix.to_owned();
    name.push_str(text_of(head).as_str());
    name
}

/// The name of the store a share's blocks are in.
#[must_use]
pub fn store_name_for(token: &[u8; 32]) -> (name: String)
    ensures
        name@ == "agent-share/"@ + record_id(token@),
{
    named_record("agent-share/", token)
}

/// The key of the record that says where a share's listing is stored.
#[must_use]
pub fn manifest_locator_key(token: &[u8; 32]) -> (key: String)
    ensures
        key@ == "agent-share/manifest/"@ + record_id(token@),
{
    named_record("agent-share/manifest/", token)
}

/// The key of the roster of peers that served a share.
#[must_use]
pub fn known_seeders_key(token: &[u8; 32]) -> (key: String)
    ensures
        key@ == "agent-share/seeders/"@ + record_id(token@),
{
    named_record("agent-share/seeders/", token)
}

/// A record counts for a day, and what counts of a roster keeps its order. At most
/// four are kept, the first of them.
pub proof fn law_a_roster_is_its_fresh_records(list: Seq<KnownView>, now: u64)
    ensures
        fresh(list, now) == list.filter(
            |entry: KnownView| now < entry.seen_ms + 24 * 3_600 * 1_000,
        ),
        list.len() <= 4 ==> capped(list) == list,
        list.len() > 4 ==> capped(list) == list.subrange(0, 4),
    decreases list.len(),
{
    reveal(Seq::filter);
    if list.len() > 0 {
        law_a_roster_is_its_fresh_records(list.drop_last(), now);
    } else {
        assert(list =~= Seq::empty());
    }
    if list.len() > 4 {
        assert(capped(list) =~= list.subrange(0, 4));
    }
}

/// What is left of a roster without some endpoints keeps its order.
pub proof fn law_what_is_not_forgotten_keeps_its_order(
    list: Seq<KnownView>,
    failed: Seq<Seq<char>>,
)
    ensures
        others(list, failed) == list.filter(|entry: KnownView| !failed.contains(entry.endpoint)),
    decreases list.len(),
{
    reveal(Seq::filter);
    if list.len() > 0 {
        law_what_is_not_forgotten_keeps_its_order(list.drop_last(), failed);
    } else {
        assert(list =~= Seq::empty());
    }
}

/// A share's records are named by the first sixteen characters of its mesh key.
pub proof fn law_records_are_named_by_the_mesh_key(token: Seq<u8>)
    requires
        mesh_key(token).len() == 64,
    ensures
        record_id(token).len() == 16,
        record_id(token) == mesh_key(token).subrange(0, 16),
{
    assert(record_id(token) =~= mesh_key(token).subrange(0, 16));
}

} // verus!
