//! What a share shows of itself: the peers it knows, how each is reached, and
//! the path that carries the bytes.
use crate::client::{CardView, PeerCard};
use crate::digest::{mesh_key, share_mesh_key};
use crate::known_seeders::{holds_text, texts};
use crate::lookup::{RelayChoice, RelayView};
use crate::mesh::{card_from, in_book, one_card_each, CardBook, CardParts, PartsView};
use crate::roster::card_views;
use crate::text::{
    chars_of, copy_opt, is_blank, opt_text, text_eq, text_of, trim_chars, trimmed,
};
use vstd::prelude::*;

verus! {

/// A candidate as it is shown: an address and a kind, each where there is one.
pub struct CandidateView {
    pub address: Option<Seq<char>>,
    pub kind: Option<Seq<char>>,
}

#[derive(Debug, Clone, PartialEq, Eq)]
pub struct Candidate {
    pub address: Option<String>,
    pub kind: Option<String>,
}

impl View for Candidate {
    type V = CandidateView;

    open spec fn view(&self) -> CandidateView {
        CandidateView { address: opt_text(self.address), kind: opt_text(self.kind) }
    }
}

/// A text that is more than white space; otherwise none.
pub open spec fn shown(text: Seq<char>) -> Option<Seq<char>> {
    if trimmed(text).len() == 0 {
        None
    } else {
        Some(text)
    }
}

fn shown_text(text: String) -> (out: Option<String>)
    ensures
        opt_text(out) == shown(text@),
{
    let chars = chars_of(text.as_str());
    if trim_chars(chars.as_slice()).len() == 0 {
        None
    } else {
        Some(text)
    }
}

/// Reads a candidate as a browser reports it. Browsers blank the local
/// address; a blank half is no value rather than an empty one.
#[must_use]
pub fn split_candidate(address: String, kind: String) -> (out: Candidate)
    ensures
        out@ == (CandidateView { address: shown(address@), kind: shown(kind@) }),
{
    Candidate { address: shown_text(address), kind: shown_text(kind) }
}

/// A candidate and whose it is.
#[derive(Debug, Clone)]
struct AddressEntry {
    id: String,
    candidate: Candidate,
}

/// The last candidate seen of each peer.
#[derive(Debug, Clone)]
pub struct AddressBook {
    entries: Vec<AddressEntry>,
}

spec fn listed(entries: Seq<AddressEntry>) -> Map<Seq<char>, CandidateView>
    decreases entries.len(),
{
    if entries.len() == 0 {
        Map::empty()
    } else {
        listed(entries.drop_last()).insert(entries.last().id@, entries.last().candidate@)
    }
}

impl View for AddressBook {
    type V = Map<Seq<char>, CandidateView>;

    closed spec fn view(&self) -> Map<Seq<char>, CandidateView> {
        listed(self.entries@)
    }
}

proof fn lemma_replaced(entries: Seq<AddressEntry>, i: int, v: CandidateView)
    requires
        0 <= i < entries.len(),
    ensures
        listed(entries.remove(i)).insert(entries[i].id@, v) == listed(entries).insert(
            entries[i].id@,
            v,
        ),
    decreases entries.len(),
{
    let rest = entries.remove(i);
    let id = entries[i].id@;
    if i == entries.len() - 1 {
        assert(rest =~= entries.drop_last());
        assert(listed(rest).insert(id, v) =~= listed(entries).insert(id, v));
    } else {
        lemma_replaced(entries.drop_last(), i, v);
        assert(rest.drop_last() =~= entries.drop_last().remove(i));
        let last = entries.last();
        let short = listed(entries.drop_last().remove(i));
        let long = listed(entries.drop_last());
        assert(short.insert(id, v) == long.insert(id, v));
        assert(short.insert(last.id@, last.candidate@).insert(id, v) =~= long.insert(
            last.id@,
            last.candidate@,
        ).insert(id, v)) by {
            assert forall|k: Seq<char>| k != id implies (short.contains_key(k)
                == #[trigger] long.contains_key(k)) by {
                assert(short.insert(id, v).contains_key(k) == long.insert(id, v).contains_key(k));
            }
            assert forall|k: Seq<char>| k != id && #[trigger] long.contains_key(k) implies short[k]
                == long[k] by {
                assert(short.insert(id, v)[k] == long.insert(id, v)[k]);
            }
        }
    }
}

impl Default for AddressBook {
    fn default() -> (book: Self)
        ensures
            book@ == Map::<Seq<char>, CandidateView>::empty(),
    {
        AddressBook { entries: Vec::new() }
    }
}

impl AddressBook {
    /// Sets the candidate of a peer.
    pub fn record(&mut self, id: String, candidate: Candidate)
        ensures
            final(self)@ == old(self)@.insert(id@, candidate@),
    {
        let ghost was = self.entries@;
        let mut i: usize = 0;
        let mut found: Option<usize> = None;
        while i < self.entries.len()
            invariant
                0 <= i <= self.entries@.len(),
                self.entries@ == was,
                found matches Some(k) ==> k < was.len() && was[k as int].id@ == id@,
            decreases self.entries@.len() - i,
        {
            if text_eq(self.entries[i].id.as_str(), id.as_str()) {
                found = Some(i);
            }
            i += 1;
        }
        match found {
            None => {},
            Some(k) => {
                proof {
                    lemma_replaced(was, k as int, candidate@);
                }
                self.entries.remove(k);
            },
        }
        let ghost kept = self.entries@;
        self.entries.push(AddressEntry { id, candidate });
        assert(self.entries@.drop_last() =~= kept);
    }

    /// The candidate of a peer; both halves missing where none was seen.
    #[must_use]
    pub fn get(&self, id: &str) -> (candidate: Candidate)
        ensures
            candidate@ == seen_of(self@, id@),
    {
        let mut i: usize = self.entries.len();
        assert(self.entries@.take(i as int) =~= self.entries@);
        while i > 0
            invariant
                0 <= i <= self.entries@.len(),
                seen_of(listed(self.entries@.take(i as int)), id@) == seen_of(self@, id@),
            decreases i,
        {
            let ghost upto = self.entries@.take(i as int);
            assert(upto.drop_last() =~= self.entries@.take(i as int - 1));
            let entry = &self.entries[i - 1];
            assert(upto.last() == *entry);
            if text_eq(entry.id.as_str(), id) {
                return Candidate {
                    address: copy_opt(&entry.candidate.address),
                    kind: copy_opt(&entry.candidate.kind),
                };
            }
            i -= 1;
        }
        Candidate { address: None, kind: None }
    }

    /// Takes the readings of a sweep over the peers with a live session. A peer
    /// with a session in two hubs is read once; the first session that knows
    /// this peer's own address is enough for it.
    pub fn refresh(&mut self, local: &str, readings: Vec<Reading>)
        ensures
            final(self)@ == swept(old(self)@, local@, reading_views(readings@)).book,
    {
        let ghost all = reading_views(readings@);
        let ghost start = self@;
        let mut sampled: Vec<String> = Vec::new();
        let mut local_seen = false;
        let mut i: usize = 0;
        assert(texts(sampled@) =~= Seq::<Seq<char>>::empty());
        while i < readings.len()
            invariant
                0 <= i <= readings@.len(),
                all == reading_views(readings@),
                (SweptView { book: self@, sampled: texts(sampled@), local_seen }) == swept(
                    start,
                    local@,
                    all.take(i as int),
                ),
            decreases readings@.len() - i,
        {
            let reading = &readings[i];
            let ghost before = SweptView { book: self@, sampled: texts(sampled@), local_seen };
            assert(all.take(i as int + 1).drop_last() =~= all.take(i as int));
            assert(all.take(i as int + 1).last() == reading@);
            if !holds_text(sampled.as_slice(), reading.id.as_str()) {
                match &reading.remote {
                    None => {},
                    Some(pair) => {
                        self.record(
                            reading.id.clone(),
                            split_candidate(pair.0.clone(), pair.1.clone()),
                        );
                    },
                }
                match &reading.own {
                    None => {},
                    Some(pair) => {
                        if !local_seen {
                            self.record(
                                local.to_owned(),
                                split_candidate(pair.0.clone(), pair.1.clone()),
                            );
                            local_seen = true;
                        }
                    },
                }
                sampled.push(reading.id.clone());
                assert(texts(sampled@) =~= before.sampled.push(reading@.id));
            }
            i += 1;
        }
        assert(all.take(i as int) =~= all);
    }
}

/// What a book says of a peer.
pub open spec fn seen_of(book: Map<Seq<char>, CandidateView>, id: Seq<char>) -> CandidateView {
    if book.contains_key(id) {
        book[id]
    } else {
        CandidateView { address: None, kind: None }
    }
}

/// What one live session of a sweep says: the remote candidate, and this peer's
/// own, each as an address and a kind.
#[derive(Debug, Clone, PartialEq, Eq)]
pub struct Reading {
    pub id: String,
    pub remote: Option<(String, String)>,
    pub own: Option<(String, String)>,
}

pub struct ReadingView {
    pub id: Seq<char>,
    pub remote: Option<CandidateView>,
    pub own: Option<CandidateView>,
}

/// A reported pair as it is shown.
pub open spec fn pair_shown(pair: Option<(String, String)>) -> Option<CandidateView> {
    match pair {
        None => None,
        Some(p) => Some(CandidateView { address: shown(p.0@), kind: shown(p.1@) }),
    }
}

impl View for Reading {
    type V = ReadingView;

    open spec fn view(&self) -> ReadingView {
        ReadingView {
            id: self.id@,
            remote: pair_shown(self.remote),
            own: pair_shown(self.own),
        }
    }
}

pub open spec fn reading_views(s: Seq<Reading>) -> Seq<ReadingView> {
    Seq::new(s.len(), |i: int| s[i]@)
}

/// Where a sweep stands.
#[verifier::ext_equal]
pub struct SweptView {
    pub book: Map<Seq<char>, CandidateView>,
    pub sampled: Seq<Seq<char>>,
    pub local_seen: bool,
}

/// A sweep over readings.
pub open spec fn swept(
    book: Map<Seq<char>, CandidateView>,
    local: Seq<char>,
    readings: Seq<ReadingView>,
) -> SweptView
    decreases readings.len(),
{
    if readings.len() == 0 {
        SweptView { book, sampled: Seq::empty(), local_seen: false }
    } else {
        let s = swept(book, local, readings.drop_last());
        let r = readings.last();
        if s.sampled.contains(r.id) {
            s
        } else {
            let remote = match r.remote {
                Some(c) => s.book.insert(r.id, c),
                None => s.book,
            };
            SweptView {
                book: match r.own {
                    Some(c) if !s.local_seen => remote.insert(local, c),
                    _ => remote,
                },
                sampled: s.sampled.push(r.id),
                local_seen: s.local_seen || r.own is Some,
            }
        }
    }
}

/// The first occurrence of each text that is in none of the others.
pub open spec fn firsts(list: Seq<Seq<char>>, without: Seq<Seq<char>>) -> Seq<Seq<char>>
    decreases list.len(),
{
    if list.len() == 0 {
        Seq::empty()
    } else {
        let kept = firsts(list.drop_last(), without);
        if without.contains(list.last()) || kept.contains(list.last()) {
            kept
        } else {
            kept.push(list.last())
        }
    }
}

/// The peers with a live session in either hub, each once.
#[must_use]
pub fn direct_peer_ids(mesh: &[String], mount: &[String]) -> (ids: Vec<String>)
    ensures
        texts(ids@) == firsts(texts(mesh@) + texts(mount@), Seq::empty()),
{
    let mut ids: Vec<String> = Vec::new();
    let ghost all = texts(mesh@) + texts(mount@);
    assert(texts(ids@) =~= firsts(all.take(0), Seq::empty()));
    let mut i: usize = 0;
    while i < mesh.len()
        invariant
            0 <= i <= mesh@.len(),
            all == texts(mesh@) + texts(mount@),
            texts(ids@) == firsts(all.take(i as int), Seq::empty()),
        decreases mesh@.len() - i,
    {
        let ghost was = texts(ids@);
        assert(all.take(i as int + 1).drop_last() =~= all.take(i as int));
        assert(all[i as int] == mesh@[i as int]@);
        if !holds_text(ids.as_slice(), mesh[i].as_str()) {
            ids.push(mesh[i].clone());
            assert(texts(ids@) =~= was.push(all[i as int]));
        }
        i += 1;
    }
    let mut k: usize = 0;
    while k < mount.len()
        invariant
            0 <= k <= mount@.len(),
            all == texts(mesh@) + texts(mount@),
            texts(ids@) == firsts(all.take(mesh@.len() + k), Seq::empty()),
        decreases mount@.len() - k,
    {
        let ghost was = texts(ids@);
        let ghost at = mesh@.len() + k;
        assert(all.take(at + 1).drop_last() =~= all.take(at));
        assert(all[at] == mount@[k as int]@);
        if !holds_text(ids.as_slice(), mount[k].as_str()) {
            ids.push(mount[k].clone());
            assert(texts(ids@) =~= was.push(all[at]));
        }
        k += 1;
    }
    assert(all.take(mesh@.len() + k) =~= all);
    ids
}

proof fn lemma_firsts(list: Seq<Seq<char>>, without: Seq<Seq<char>>)
    ensures
        forall|i: int, j: int|
            0 <= i < j < firsts(list, without).len() ==> #[trigger] firsts(list, without)[i]
                != #[trigger] firsts(list, without)[j],
        forall|i: int|
            0 <= i < firsts(list, without).len() ==> list.contains(
                #[trigger] firsts(list, without)[i],
            ) && !without.contains(firsts(list, without)[i]),
        forall|t: Seq<char>| #[trigger]
            list.contains(t) && !without.contains(t) ==> firsts(list, without).contains(t),
    decreases list.len(),
{
    if list.len() > 0 {
        let short = list.drop_last();
        let kept = firsts(short, without);
        let out = firsts(list, without);
        lemma_firsts(short, without);
        assert forall|i: int| 0 <= i < out.len() implies list.contains(#[trigger] out[i])
            && !without.contains(out[i]) by {
            if i < kept.len() {
                assert(kept[i] == out[i]);
                let k = choose|k: int| 0 <= k < short.len() && short[k] == kept[i];
                assert(list[k] == out[i]);
            } else {
                assert(list[list.len() - 1] == out[i]);
            }
        }
        assert forall|t: Seq<char>| #[trigger] list.contains(t) && !without.contains(t) implies
            out.contains(t) by {
            let k = choose|k: int| 0 <= k < list.len() && list[k] == t;
            if k < short.len() {
                assert(short[k] == t);
                assert(short.contains(t));
                let i = choose|i: int| 0 <= i < kept.len() && kept[i] == t;
                assert(out[i] == t);
            } else if kept.contains(t) {
                let i = choose|i: int| 0 <= i < kept.len() && kept[i] == t;
                assert(out[i] == t);
            } else {
                assert(out[out.len() - 1] == t);
            }
        }
    }
}

/// A peer counts once however many hubs it has a session in.
pub proof fn law_a_direct_peer_counts_once(mesh: Seq<Seq<char>>, mount: Seq<Seq<char>>)
    ensures
        forall|i: int, j: int|
            0 <= i < j < firsts(mesh + mount, Seq::empty()).len() ==> #[trigger] firsts(
                mesh + mount,
                Seq::empty(),
            )[i] != #[trigger] firsts(mesh + mount, Seq::empty())[j],
        forall|id: Seq<char>|
            (mesh.contains(id) || mount.contains(id)) <==> #[trigger] firsts(
                mesh + mount,
                Seq::empty(),
            ).contains(id),
{
    let all = mesh + mount;
    let none = Seq::<Seq<char>>::empty();
    lemma_firsts(all, none);
    assert forall|id: Seq<char>| (mesh.contains(id) || mount.contains(id))
        <==> #[trigger] firsts(all, none).contains(id) by {
        if mesh.contains(id) {
            let k = choose|k: int| 0 <= k < mesh.len() && mesh[k] == id;
            assert(all[k] == id);
            assert(all.contains(id));
        }
        if mount.contains(id) {
            let k = choose|k: int| 0 <= k < mount.len() && mount[k] == id;
            assert(all[mesh.len() + k] == id);
            assert(all.contains(id));
        }
        if firsts(all, none).contains(id) {
            let i = choose|i: int| 0 <= i < firsts(all, none).len() && firsts(all, none)[i] == id;
            assert(all.contains(firsts(all, none)[i]));
            let k = choose|k: int| 0 <= k < all.len() && all[k] == id;
            if k < mesh.len() {
                assert(mesh[k] == id);
            } else {
                assert(mount[k - mesh.len()] == id);
            }
        }
    }
}

/// One row of the list of peers.
#[derive(Debug, Clone, PartialEq, Eq)]
pub struct PeerRow {
    pub id: String,
    pub role: String,
    pub flags: String,
    pub client: String,
    pub version: Option<String>,
    pub runtime: Option<String>,
    pub app_role: Option<String>,
    pub address: Option<String>,
    pub kind: Option<String>,
    pub proto: String,
    pub serving: Option<String>,
    pub tree: Option<String>,
}

pub struct RowView {
    pub id: Seq<char>,
    pub role: Seq<char>,
    pub flags: Seq<char>,
    pub client: Seq<char>,
    pub version: Option<Seq<char>>,
    pub runtime: Option<Seq<char>>,
    pub app_role: Option<Seq<char>>,
    pub address: Option<Seq<char>>,
    pub kind: Option<Seq<char>>,
    pub proto: Seq<char>,
    pub serving: Option<Seq<char>>,
    pub tree: Option<Seq<char>>,
}

impl View for PeerRow {
    type V = RowView;

    open spec fn view(&self) -> RowView {
        RowView {
            id: self.id@,
            role: self.role@,
            flags: self.flags@,
            client: self.client@,
            version: opt_text(self.version),
            runtime: opt_text(self.runtime),
            app_role: opt_text(self.app_role),
            address: opt_text(self.address),
            kind: opt_text(self.kind),
            proto: self.proto@,
            serving: opt_text(self.serving),
            tree: opt_text(self.tree),
        }
    }
}

pub open spec fn row_views(s: Seq<PeerRow>) -> Seq<RowView> {
    Seq::new(s.len(), |i: int| s[i]@)
}

/// What the list of peers is made from.
pub struct SwarmInputs {
    /// This peer's endpoint.
    pub local: String,
    /// The endpoint the share is read from.
    pub producer: String,
    /// This library's version, for the row of a peer that has no card yet.
    pub version: String,
    /// The path the share is read over.
    pub data_path: String,
    /// The peers with a live session.
    pub live: Vec<String>,
    pub addresses: AddressBook,
    /// The cards of the mesh, where one was joined.
    pub cards: Option<CardBook>,
}

pub struct SwarmView {
    pub local: Seq<char>,
    pub producer: Seq<char>,
    pub version: Seq<char>,
    pub data_path: Seq<char>,
    pub live: Seq<Seq<char>>,
    pub addresses: Map<Seq<char>, CandidateView>,
    pub cards: Seq<CardView>,
}

impl View for SwarmInputs {
    type V = SwarmView;

    open spec fn view(&self) -> SwarmView {
        SwarmView {
            local: self.local@,
            producer: self.producer@,
            version: self.version@,
            data_path: self.data_path@,
            live: texts(self.live@),
            addresses: self.addresses@,
            cards: match self.cards {
                Some(book) => book@,
                None => Seq::empty(),
            },
        }
    }
}

/// The card of an endpoint, where there is one.
pub open spec fn card_of(cards: Seq<CardView>, id: Seq<char>) -> Option<CardView>
    decreases cards.len(),
{
    if cards.len() == 0 {
        None
    } else if cards.last().endpoint == id {
        Some(cards.last())
    } else {
        card_of(cards.drop_last(), id)
    }
}

proof fn lemma_card_of(cards: Seq<CardView>, card: CardView)
    requires
        one_card_each(cards),
        in_book(cards, card),
    ensures
        card_of(cards, card.endpoint) == Some(card),
    decreases cards.len(),
{
    let i = choose|i: int| 0 <= i < cards.len() && #[trigger] cards[i] == card;
    if i < cards.len() - 1 {
        assert(cards[i].endpoint != cards[cards.len() - 1].endpoint);
        let short = cards.drop_last();
        assert(short[i] == card);
        assert(one_card_each(short)) by {
            assert forall|a: int, b: int| 0 <= a < b < short.len() implies (
            #[trigger] short[a]).endpoint != (#[trigger] short[b]).endpoint by {
                assert(cards[a].endpoint != cards[b].endpoint);
            }
        }
        lemma_card_of(short, card);
    }
}

proof fn lemma_no_card(cards: Seq<CardView>, id: Seq<char>)
    requires
        forall|i: int| 0 <= i < cards.len() ==> (#[trigger] cards[i]).endpoint != id,
    ensures
        card_of(cards, id) is None,
    decreases cards.len(),
{
    if cards.len() > 0 {
        assert(cards[cards.len() - 1].endpoint != id);
        let short = cards.drop_last();
        assert forall|i: int| 0 <= i < short.len() implies (#[trigger] short[i]).endpoint
            != id by {
            assert(short[i] == cards[i]);
        }
        lemma_no_card(short, id);
    }
}

/// The parts of a peer's own card before it has published one.
pub open spec fn own_parts(s: SwarmView) -> PartsView {
    PartsView {
        version: s.version,
        runtime: "browser"@,
        transport: s.data_path,
        role: Some("consumer"@),
    }
}

/// A row: what the peer's card says of it, and what is known without one.
pub open spec fn row_of(
    s: SwarmView,
    id: Seq<char>,
    role: Seq<char>,
    flags: Seq<char>,
    fallback: Seq<char>,
    candidate: CandidateView,
) -> RowView {
    let card = card_of(s.cards, id);
    RowView {
        id,
        role,
        flags,
        client: match card {
            Some(c) => c.client,
            None => if id == s.local {
                card_from(own_parts(s), s.local).client
            } else {
                "unknown"@
            },
        },
        version: match card {
            Some(c) => Some(c.version),
            None => None,
        },
        runtime: match card {
            Some(c) => Some(c.runtime),
            None => None,
        },
        app_role: match card {
            Some(c) => c.role,
            None => None,
        },
        address: candidate.address,
        kind: candidate.kind,
        proto: match card {
            Some(c) if c.transport.len() > 0 => c.transport,
            _ => fallback,
        },
        serving: match card {
            Some(c) => c.serving,
            None => None,
        },
        tree: match card {
            Some(c) => c.tree,
            None => None,
        },
    }
}

/// A row of a peer with a live session.
pub open spec fn direct_row(s: SwarmView, id: Seq<char>) -> RowView {
    row_of(s, id, "direct"@, "D"@, "webrtc"@, seen_of(s.addresses, id))
}

/// A row of a peer that is only known from its card.
pub open spec fn gossip_row(s: SwarmView, id: Seq<char>) -> RowView {
    row_of(
        s,
        id,
        "gossip"@,
        Seq::empty(),
        "gossip"@,
        CandidateView { address: None, kind: None },
    )
}

/// The endpoints of cards.
pub open spec fn endpoints(cards: Seq<CardView>) -> Seq<Seq<char>> {
    Seq::new(cards.len(), |i: int| cards[i].endpoint)
}

/// The peers with a live session that have no row of their own yet.
pub open spec fn direct_ids(s: SwarmView) -> Seq<Seq<char>> {
    firsts(s.live, seq![s.local, s.producer])
}

/// The peers that are only known from their cards.
pub open spec fn gossip_ids(s: SwarmView) -> Seq<Seq<char>> {
    firsts(endpoints(s.cards), seq![s.local, s.producer] + s.live)
}

/// The list of peers: this one, the producer, everybody with a live session,
/// and then everybody who published a card.
pub open spec fn swarm_rows(s: SwarmView) -> Seq<RowView> {
    let own = row_of(s, s.local, "self"@, "*"@, s.data_path, seen_of(s.addresses, s.local));
    let producer = row_of(
        s,
        s.producer,
        "producer"@,
        if s.live.contains(s.producer) {
            "SD"@
        } else {
            "S"@
        },
        s.data_path,
        seen_of(s.addresses, s.producer),
    );
    seq![own, producer] + Seq::new(
        direct_ids(s).len(),
        |i: int| direct_row(s, direct_ids(s)[i]),
    ) + Seq::new(gossip_ids(s).len(), |i: int| gossip_row(s, gossip_ids(s)[i]))
}

impl SwarmInputs {
    /// The cards are one for each endpoint.
    pub open spec fn wf(&self) -> bool {
        one_card_each(self@.cards)
    }

    fn card_for(&self, id: &str) -> (card: Option<PeerCard>)
        requires
            self.wf(),
        ensures
            match card {
                Some(c) => card_of(self@.cards, id@) == Some(c@),
                None => card_of(self@.cards, id@) is None,
            },
    {
        match &self.cards {
            None => None,
            Some(book) => {
                let card = book.card_for(id);
                proof {
                    if card is Some {
                        lemma_card_of(book@, card->Some_0@);
                    } else {
                        lemma_no_card(book@, id@);
                    }
                }
                card
            },
        }
    }

    fn peer_row(
        &self,
        id: &str,
        role: &str,
        flags: &str,
        fallback: &str,
        candidate: Candidate,
    ) -> (row: PeerRow)
        requires
            self.wf(),
        ensures
            row@ == row_of(self@, id@, role@, flags@, fallback@, candidate@),
    {
        match self.card_for(id) {
            Some(card) => {
                let proto = if is_blank(card.transport.as_str()) {
                    fallback.to_owned()
                } else {
                    card.transport
                };
                PeerRow {
                    id: id.to_owned(),
                    role: role.to_owned(),
                    flags: flags.to_owned(),
                    client: card.client,
                    version: Some(card.version),
                    runtime: Some(card.runtime),
                    app_role: card.role,
                    address: candidate.address,
                    kind: candidate.kind,
                    proto,
                    serving: card.serving,
                    tree: card.tree,
                }
            },
            None => {
                let client = if text_eq(id, self.local.as_str()) {
                    let parts = CardParts {
                        version: self.version.clone(),
                        runtime: "browser".to_owned(),
                        transport: self.data_path.clone(),
                        role: Some("consumer".to_owned()),
                    };
                    parts.into_card(self.local.as_str()).client
                } else {
                    "unknown".to_owned()
                };
                PeerRow {
                    id: id.to_owned(),
                    role: role.to_owned(),
                    flags: flags.to_owned(),
                    client,
                    version: None,
                    runtime: None,
                    app_role: None,
                    address: candidate.address,
                    kind: candidate.kind,
                    proto: fallback.to_owned(),
                    serving: None,
                    tree: None,
                }
            },
        }
    }

    /// The list of peers.
    #[must_use]
    pub fn swarm_peers(&self) -> (rows: Vec<PeerRow>)
        requires
            self.wf(),
        ensures
            row_views(rows@) == swarm_rows(self@),
    {
        let ghost s = self@;
        let ghost want = swarm_rows(s);
        let mut rows: Vec<PeerRow> = Vec::new();
        rows.push(
            self.peer_row(
                self.local.as_str(),
                "self",
                "*",
                self.data_path.as_str(),
                self.addresses.get(self.local.as_str()),
            ),
        );
        let flags = if holds_text(self.live.as_slice(), self.producer.as_str()) {
            "SD"
        } else {
            "S"
        };
        rows.push(
            self.peer_row(
                self.producer.as_str(),
                "producer",
                flags,
                self.data_path.as_str(),
                self.addresses.get(self.producer.as_str()),
            ),
        );
        let mut seen: Vec<String> = Vec::new();
        seen.push(self.local.clone());
        seen.push(self.producer.clone());
        let ghost pair = seq![s.local, s.producer];
        assert(texts(seen@) =~= pair + firsts(s.live.take(0), pair));
        assert(row_views(rows@) =~= want.take(2));
        let mut i: usize = 0;
        while i < self.live.len()
            invariant
                0 <= i <= self.live@.len(),
                self.wf(),
                s == self@,
                want == swarm_rows(s),
                pair == seq![s.local, s.producer],
                texts(seen@) == pair + firsts(s.live.take(i as int), pair),
                row_views(rows@).len() == 2 + firsts(s.live.take(i as int), pair).len(),
                row_views(rows@).take(2) == want.take(2),
                forall|k: int|
                    0 <= k < firsts(s.live.take(i as int), pair).len() ==> #[trigger] row_views(
                        rows@,
                    )[2 + k] == direct_row(s, firsts(s.live.take(i as int), pair)[k]),
            decreases self.live@.len() - i,
        {
            let ghost kept = firsts(s.live.take(i as int), pair);
            let ghost before = row_views(rows@);
            let ghost id = s.live[i as int];
            assert(s.live.take(i as int + 1).drop_last() =~= s.live.take(i as int));
            assert(id == self.live@[i as int]@);
            proof {
                lemma_either(pair, kept, id);
            }
            if !holds_text(seen.as_slice(), self.live[i].as_str()) {
                let ghost known = texts(seen@);
                seen.push(self.live[i].clone());
                assert(texts(seen@) =~= known.push(id));
                assert(texts(seen@) =~= pair + kept.push(id));
                rows.push(
                    self.peer_row(
                        self.live[i].as_str(),
                        "direct",
                        "D",
                        "webrtc",
                        self.addresses.get(self.live[i].as_str()),
                    ),
                );
                assert(row_views(rows@) =~= before.push(direct_row(s, id)));
                assert(row_views(rows@).take(2) =~= before.take(2));
            }
            i += 1;
        }
        assert(s.live.take(i as int) =~= s.live);
        let ghost direct = direct_ids(s);
        let ghost head = row_views(rows@);
        assert(head =~= want.take(2 + direct.len() as int)) by {
            assert forall|k: int| 0 <= k < head.len() implies head[k] == #[trigger] want[k] by {
                if k < 2 {
                    assert(head.take(2)[k] == want.take(2)[k]);
                } else {
                    assert(head[2 + (k - 2)] == direct_row(s, direct[k - 2]));
                }
            }
        }
        let cards = match &self.cards {
            Some(book) => book.known_cards(),
            None => Vec::new(),
        };
        assert(card_views(cards@) =~= s.cards);
        let ghost ids = endpoints(s.cards);
        let ghost skip = pair + s.live;
        proof {
            lemma_firsts(s.live, pair);
            assert forall|id: Seq<char>| #[trigger] texts(seen@).contains(id) <==> skip.contains(
                id,
            ) by {
                lemma_either(pair, direct, id);
                lemma_either(pair, s.live, id);
                if direct.contains(id) {
                    let k = choose|k: int| 0 <= k < direct.len() && direct[k] == id;
                    assert(s.live.contains(direct[k]));
                }
            }
            lemma_either(texts(seen@), Seq::empty(), s.local);
        }
        let ghost known = texts(seen@);
        assert(texts(seen@) =~= known + firsts(ids.take(0), skip));
        let mut j: usize = 0;
        while j < cards.len()
            invariant
                0 <= j <= cards@.len(),
                self.wf(),
                s == self@,
                card_views(cards@) == s.cards,
                ids == endpoints(s.cards),
                texts(seen@) == known + firsts(ids.take(j as int), skip),
                forall|id: Seq<char>| #[trigger] known.contains(id) <==> skip.contains(id),
                row_views(rows@).len() == head.len() + firsts(ids.take(j as int), skip).len(),
                row_views(rows@).take(head.len() as int) == head,
                forall|k: int|
                    0 <= k < firsts(ids.take(j as int), skip).len() ==> #[trigger] row_views(
                        rows@,
                    )[head.len() + k] == gossip_row(s, firsts(ids.take(j as int), skip)[k]),
            decreases cards@.len() - j,
        {
            let ghost kept = firsts(ids.take(j as int), skip);
            let ghost before = row_views(rows@);
            let ghost id = ids[j as int];
            assert(ids.take(j as int + 1).drop_last() =~= ids.take(j as int));
            assert(card_views(cards@)[j as int] == cards@[j as int]@);
            proof {
                lemma_either(known, kept, id);
                lemma_card_of(s.cards, s.cards[j as int]);
            }
            let card = &cards[j];
            if !holds_text(seen.as_slice(), card.endpoint.as_str()) {
                let ghost all = texts(seen@);
                seen.push(card.endpoint.clone());
                assert(texts(seen@) =~= all.push(id));
                assert(texts(seen@) =~= known + kept.push(id));
                let fallback = if is_blank(card.transport.as_str()) {
                    "gossip"
                } else {
                    card.transport.as_str()
                };
                proof {
                    reveal_strlit("");
                }
                rows.push(
                    self.peer_row(
                        card.endpoint.as_str(),
                        "gossip",
                        "",
                        fallback,
                        Candidate { address: None, kind: None },
                    ),
                );
                assert(""@ =~= Seq::<char>::empty());
                assert(row_views(rows@) =~= before.push(gossip_row(s, id)));
                assert(row_views(rows@).take(head.len() as int) =~= head);
            }
            j += 1;
        }
        assert(ids.take(j as int) =~= ids);
        let ghost out = row_views(rows@);
        assert(out =~= want) by {
            assert(out.len() == want.len());
            assert forall|k: int| 0 <= k < out.len() implies out[k] == #[trigger] want[k] by {
                if k < head.len() {
                    assert(out.take(head.len() as int)[k] == head[k]);
                    assert(want.take(2 + direct.len() as int)[k] == want[k]);
                } else {
                    let g = k - head.len();
                    assert(out[head.len() + g] == gossip_row(s, gossip_ids(s)[g]));
                }
            }
        }
        rows
    }
}

proof fn lemma_either(a: Seq<Seq<char>>, b: Seq<Seq<char>>, x: Seq<char>)
    ensures
        (a + b).contains(x) <==> a.contains(x) || b.contains(x),
{
    let ab = a + b;
    if a.contains(x) {
        let k = choose|k: int| 0 <= k < a.len() && a[k] == x;
        assert(ab[k] == x);
    }
    if b.contains(x) {
        let k = choose|k: int| 0 <= k < b.len() && b[k] == x;
        assert(ab[a.len() + k] == x);
    }
    if ab.contains(x) {
        let k = choose|k: int| 0 <= k < ab.len() && ab[k] == x;
        if k < a.len() {
            assert(a[k] == x);
        } else {
            assert(b[k - a.len()] == x);
        }
    }
}

/// Whether some row is of a peer.
pub open spec fn has_row(rows: Seq<RowView>, id: Seq<char>) -> bool {
    exists|i: int| 0 <= i < rows.len() && (#[trigger] rows[i]).id == id
}

/// Everybody is listed once: this peer and the producer first, each peer with a
/// live session or a card exactly once after them, and nobody else.
pub proof fn law_every_peer_has_one_row(s: SwarmView, id: Seq<char>)
    requires
        s.local != s.producer,
    ensures
        has_row(swarm_rows(s), id) <==> id == s.local || id == s.producer || s.live.contains(id)
            || endpoints(s.cards).contains(id),
        forall|i: int, j: int|
            0 <= i < j < swarm_rows(s).len() ==> (#[trigger] swarm_rows(s)[i]).id != (
            #[trigger] swarm_rows(s)[j]).id,
{
    let rows = swarm_rows(s);
    let pair = seq![s.local, s.producer];
    let direct = direct_ids(s);
    let gossip = gossip_ids(s);
    let ids = endpoints(s.cards);
    lemma_firsts(s.live, pair);
    lemma_firsts(ids, pair + s.live);
    let all = pair + direct + gossip;
    assert(rows.len() == all.len());
    assert forall|i: int| 0 <= i < rows.len() implies (#[trigger] rows[i]).id == all[i] by {
        if i >= 2 + direct.len() {
            assert(rows[i] == gossip_row(s, gossip[i - 2 - direct.len()]));
        } else if i >= 2 {
            assert(rows[i] == direct_row(s, direct[i - 2]));
        }
    }
    assert(pair[0] == s.local && pair[1] == s.producer);
    assert forall|x: Seq<char>| #[trigger] pair.contains(x) <==> x == s.local || x
        == s.producer by {
        if x == s.local {
            assert(pair[0] == x);
        }
        if x == s.producer {
            assert(pair[1] == x);
        }
    }
    assert forall|i: int, j: int| 0 <= i < j < rows.len() implies (#[trigger] rows[i]).id != (
    #[trigger] rows[j]).id by {
        let a = all[i];
        let b = all[j];
        if j >= 2 + direct.len() {
            assert(b == gossip[j - 2 - direct.len()]);
            lemma_either(pair, s.live, b);
            if i >= 2 + direct.len() {
                assert(a == gossip[i - 2 - direct.len()]);
            } else if i >= 2 {
                assert(a == direct[i - 2]);
                assert(s.live.contains(direct[i - 2]));
            } else {
                assert(pair.contains(a));
            }
        } else if j >= 2 {
            assert(b == direct[j - 2]);
            if i >= 2 {
                assert(a == direct[i - 2]);
            } else {
                assert(pair.contains(a));
            }
        }
    }
    lemma_either(pair + direct, gossip, id);
    lemma_either(pair, direct, id);
    lemma_either(pair, s.live, id);
    if has_row(rows, id) {
        let i = choose|i: int| 0 <= i < rows.len() && (#[trigger] rows[i]).id == id;
        assert(all[i] == id);
        assert(all.contains(id));
        if direct.contains(id) {
            let k = choose|k: int| 0 <= k < direct.len() && direct[k] == id;
            assert(s.live.contains(direct[k]));
        }
        if gossip.contains(id) {
            let k = choose|k: int| 0 <= k < gossip.len() && gossip[k] == id;
            assert(ids.contains(gossip[k]));
        }
    }
    if id == s.local || id == s.producer || s.live.contains(id) || ids.contains(id) {
        assert(all.contains(id));
        let i = choose|i: int| 0 <= i < all.len() && all[i] == id;
        assert(rows[i].id == id);
    }
}

/// How a share's identity is shown: the ends of its mesh key.
pub open spec fn shown_identity(token: Seq<u8>) -> Seq<char> {
    mesh_key(token).take(8) + "…"@ + mesh_key(token).skip(56)
}

#[must_use]
pub fn identity_fingerprint(token: &[u8; 32]) -> (text: String)
    ensures
        text@ == shown_identity(token@),
{
    let key = share_mesh_key(token);
    let chars = chars_of(key.as_str());
    let head = text_of(vstd::slice::slice_subrange(chars.as_slice(), 0, 8));
    let tail = text_of(vstd::slice::slice_subrange(chars.as_slice(), 56, 64));
    let mut text = String::new();
    text.push_str(head.as_str());
    text.push_str("…");
    text.push_str(tail.as_str());
    assert(text@ =~= shown_identity(token@));
    text
}

/// What a path of a connection runs over.
#[derive(Debug, Clone, PartialEq, Eq)]
pub enum PathKind {
    Relay,
    Ip,
    /// The transport of data channels.
    DataChannel,
    /// Anything else, described.
    Other(String),
}

/// A path's label. What counts as `webrtc` is decided here and nowhere else.
pub open spec fn label_of(path: PathKind) -> Seq<char> {
    match path {
        PathKind::Relay => "relay"@,
        PathKind::Ip => "ip"@,
        PathKind::DataChannel => "webrtc"@,
        PathKind::Other(text) => text@,
    }
}

#[must_use]
pub fn path_label(path: &PathKind) -> (text: String)
    ensures
        text@ == label_of(*path),
{
    match path {
        PathKind::Relay => "relay".to_owned(),
        PathKind::Ip => "ip".to_owned(),
        PathKind::DataChannel => "webrtc".to_owned(),
        PathKind::Other(text) => text.clone(),
    }
}

/// A path of a connection, and whether it carries the bytes now.
#[derive(Debug, Clone, PartialEq, Eq)]
pub struct NetPath {
    pub kind: PathKind,
    pub selected: bool,
}

/// The label of the first selected path.
pub open spec fn selected_label(paths: Seq<NetPath>) -> Option<Seq<char>>
    decreases paths.len(),
{
    if paths.len() == 0 {
        None
    } else if paths[0].selected {
        Some(label_of(paths[0].kind))
    } else {
        selected_label(paths.skip(1))
    }
}

/// The path that carries the bytes now, if one was selected yet.
#[must_use]
pub fn selected_path_label(paths: &[NetPath]) -> (label: Option<String>)
    ensures
        opt_text(label) == selected_label(paths@),
{
    let mut i: usize = 0;
    assert(paths@.skip(0) =~= paths@);
    while i < paths.len()
        invariant
            0 <= i <= paths@.len(),
            selected_label(paths@) == selected_label(paths@.skip(i as int)),
        decreases paths@.len() - i,
    {
        assert(paths@.skip(i as int).skip(1) =~= paths@.skip(i as int + 1));
        if paths[i].selected {
            return Some(path_label(&paths[i].kind));
        }
        i += 1;
    }
    None
}

/// The labels of paths.
pub open spec fn labels_of(paths: Seq<NetPath>) -> Seq<Seq<char>> {
    Seq::new(paths.len(), |i: int| label_of(paths[i].kind))
}

#[must_use]
pub fn path_labels(paths: &[NetPath]) -> (labels: Vec<String>)
    ensures
        texts(labels@) == labels_of(paths@),
{
    let mut labels: Vec<String> = Vec::new();
    let mut i: usize = 0;
    while i < paths.len()
        invariant
            0 <= i <= paths@.len(),
            labels@.len() == i,
            forall|k: int| 0 <= k < i ==> (#[trigger] labels@[k])@ == label_of(paths@[k].kind),
        decreases paths@.len() - i,
    {
        labels.push(path_label(&paths[i].kind));
        i += 1;
    }
    assert(texts(labels@) =~= labels_of(paths@));
    labels
}

/// How the reach of a ticket's relays is shown.
pub open spec fn relay_label_of(relay: RelayView) -> Seq<char> {
    match relay {
        RelayView::Disabled => "disabled"@,
        RelayView::Pinned => "pinned"@,
        RelayView::Custom(_) => "custom"@,
    }
}

#[must_use]
pub fn relay_label(relay: &RelayChoice) -> (text: &'static str)
    ensures
        text@ == relay_label_of(relay@),
{
    match relay {
        RelayChoice::Disabled => "disabled",
        RelayChoice::Pinned => "pinned",
        RelayChoice::Custom(_) => "custom",
    }
}

/// What the info pane shows of the connection, beside the list of peers.
#[derive(Debug, Clone, PartialEq, Eq)]
pub struct ConnectionInfo {
    pub transport: String,
    pub identity: String,
    pub relay_urls: Vec<String>,
    pub relay: String,
    pub paths: Vec<String>,
}

pub struct ConnectionView {
    pub transport: Seq<char>,
    pub identity: Seq<char>,
    pub relay_urls: Seq<Seq<char>>,
    pub relay: Seq<char>,
    pub paths: Seq<Seq<char>>,
}

impl View for ConnectionInfo {
    type V = ConnectionView;

    open spec fn view(&self) -> ConnectionView {
        ConnectionView {
            transport: self.transport@,
            identity: self.identity@,
            relay_urls: texts(self.relay_urls@),
            relay: self.relay@,
            paths: texts(self.paths@),
        }
    }
}

/// Describes a connection. The path is the one selected now, and the one
/// recorded at connect only while none is; the relays are the rendezvous
/// endpoint's, since a data channel's own endpoint has none.
#[must_use]
pub fn describe_connection(
    token: &[u8; 32],
    paths: &[NetPath],
    data_path: &str,
    rendezvous: Vec<String>,
    own: Vec<String>,
    relay: &RelayChoice,
) -> (info: ConnectionInfo)
    ensures
        info@ == (ConnectionView {
            transport: match selected_label(paths@) {
                Some(label) => label,
                None => data_path@,
            },
            identity: shown_identity(token@),
            relay_urls: if rendezvous@.len() == 0 {
                texts(own@)
            } else {
                texts(rendezvous@)
            },
            relay: relay_label_of(relay@),
            paths: labels_of(paths@),
        }),
{
    let transport = match selected_path_label(paths) {
        Some(label) => label,
        None => data_path.to_owned(),
    };
    let relay_urls = if rendezvous.len() == 0 {
        own
    } else {
        rendezvous
    };
    ConnectionInfo {
        transport,
        identity: identity_fingerprint(token),
        relay_urls,
        relay: relay_label(relay).to_owned(),
        paths: path_labels(paths),
    }
}

/// A reported half of a candidate is shown where it holds anything but white space.
pub proof fn law_a_blank_half_is_no_value(text: Seq<char>)
    ensures
        (forall|i: int| 0 <= i < text.len() ==> crate::text::is_white(#[trigger] text[i]))
            ==> shown(text) is None,
        (exists|i: int| 0 <= i < text.len() && !crate::text::is_white(#[trigger] text[i]))
            ==> shown(text) == Some(text),
{
    crate::text::law_only_white_space_trims_to_nothing(text);
}

/// Whether a reading is the first of its peer.
pub open spec fn is_first_reading(readings: Seq<ReadingView>, i: int) -> bool {
    &&& 0 <= i < readings.len()
    &&& forall|j: int| 0 <= j < i ==> (#[trigger] readings[j]).id != readings[i].id
}

proof fn lemma_sampled(
    book: Map<Seq<char>, CandidateView>,
    local: Seq<char>,
    readings: Seq<ReadingView>,
    id: Seq<char>,
)
    ensures
        swept(book, local, readings).sampled.contains(id) <==> exists|i: int|
            0 <= i < readings.len() && (#[trigger] readings[i]).id == id,
    decreases readings.len(),
{
    if readings.len() > 0 {
        let front = readings.drop_last();
        let s = swept(book, local, front);
        lemma_sampled(book, local, front, id);
        let r = readings.last();
        assert(readings[readings.len() - 1] == r);
        if s.sampled.contains(id) {
            let i = choose|i: int| 0 <= i < front.len() && (#[trigger] front[i]).id == id;
            assert(readings[i].id == id);
            if !s.sampled.contains(r.id) {
                let k = choose|k: int| 0 <= k < s.sampled.len() && s.sampled[k] == id;
                assert(s.sampled.push(r.id)[k] == id);
            }
        }
        if id == r.id && !s.sampled.contains(r.id) {
            assert(s.sampled.push(r.id)[s.sampled.len() as int] == id);
        }
        if swept(book, local, readings).sampled.contains(id) && id != r.id {
            if !s.sampled.contains(r.id) {
                let all = s.sampled.push(r.id);
                let k = choose|k: int| 0 <= k < all.len() && all[k] == id;
                assert(s.sampled[k] == id);
            }
            assert(s.sampled.contains(id));
        }
        if (exists|i: int| 0 <= i < readings.len() && (#[trigger] readings[i]).id == id) && id
            != r.id {
            let i = choose|i: int| 0 <= i < readings.len() && (#[trigger] readings[i]).id == id;
            assert(front[i].id == id);
        }
    }
}

/// A sweep records of every peer what its first reading says, and keeps what it knew
/// of a peer whose first reading says nothing or who was not read.
pub proof fn law_a_sweep_records_first_readings(
    book: Map<Seq<char>, CandidateView>,
    local: Seq<char>,
    readings: Seq<ReadingView>,
    id: Seq<char>,
    i: int,
)
    requires
        id != local,
    ensures
        is_first_reading(readings, i) && readings[i].id == id ==> seen_of(
            swept(book, local, readings).book,
            id,
        ) == (match readings[i].remote {
            Some(candidate) => candidate,
            None => seen_of(book, id),
        }),
        (forall|j: int| 0 <= j < readings.len() ==> (#[trigger] readings[j]).id != id) ==> seen_of(
            swept(book, local, readings).book,
            id,
        ) == seen_of(book, id),
    decreases readings.len(),
{
    if readings.len() > 0 {
        let front = readings.drop_last();
        let s = swept(book, local, front);
        let r = readings.last();
        law_a_sweep_records_first_readings(book, local, front, id, i);
        lemma_sampled(book, local, front, r.id);
        if forall|j: int| 0 <= j < readings.len() ==> (#[trigger] readings[j]).id != id {
            assert(readings[readings.len() - 1].id != id);
            assert forall|j: int| 0 <= j < front.len() implies (#[trigger] front[j]).id != id by {
                assert(readings[j].id != id);
            }
        }
        if is_first_reading(readings, i) && readings[i].id == id {
            if i < front.len() {
                assert forall|j: int| 0 <= j < i implies (#[trigger] front[j]).id
                    != front[i].id by {
                    assert(readings[j].id != readings[i].id);
                }
                assert(is_first_reading(front, i));
                if r.id == id {
                    assert(front[i].id == r.id);
                }
            } else {
                assert forall|j: int| 0 <= j < front.len() implies (#[trigger] front[j]).id
                    != id by {
                    assert(readings[j].id != readings[i].id);
                }
            }
        }
    }
}

/// Of this peer itself a sweep records what the first of those readings says that
/// says anything of it. Without one it keeps what it knew.
pub proof fn law_a_sweep_records_itself_once(
    book: Map<Seq<char>, CandidateView>,
    local: Seq<char>,
    readings: Seq<ReadingView>,
    i: int,
)
    requires
        forall|j: int| 0 <= j < readings.len() ==> (#[trigger] readings[j]).id != local,
    ensures
        ({
            let out = swept(book, local, readings);
            &&& is_first_reading(readings, i) && readings[i].own is Some && (forall|j: int|
                0 <= j < i && #[trigger] is_first_reading(readings, j) ==> readings[j].own is None)
                ==> out.local_seen && seen_of(out.book, local) == readings[i].own->Some_0
            &&& (forall|j: int| #[trigger]
                is_first_reading(readings, j) ==> readings[j].own is None) ==> !out.local_seen
                && seen_of(out.book, local) == seen_of(book, local)
        }),
    decreases readings.len(),
{
    if readings.len() > 0 {
        let front = readings.drop_last();
        let s = swept(book, local, front);
        let r = readings.last();
        let n = readings.len() - 1;
        assert(readings[n].id != local);
        assert forall|j: int| 0 <= j < front.len() implies (#[trigger] front[j]).id != local by {
            assert(readings[j].id != local);
        }
        law_a_sweep_records_itself_once(book, local, front, i);
        lemma_sampled(book, local, front, r.id);
        assert forall|j: int| 0 <= j < n implies is_first_reading(front, j)
            == #[trigger] is_first_reading(readings, j) by {
            if is_first_reading(front, j) {
                assert forall|k: int| 0 <= k < j implies (#[trigger] readings[k]).id
                    != readings[j].id by {
                    assert(front[k].id != front[j].id);
                }
            }
            if is_first_reading(readings, j) {
                assert forall|k: int| 0 <= k < j implies (#[trigger] front[k]).id != front[j].id by {
                    assert(readings[k].id != readings[j].id);
                }
            }
        }
        assert(is_first_reading(readings, n) <==> !s.sampled.contains(r.id)) by {
            if is_first_reading(readings, n) && s.sampled.contains(r.id) {
                let k = choose|k: int| 0 <= k < front.len() && (#[trigger] front[k]).id == r.id;
                assert(readings[k].id != readings[n].id);
            }
            if !s.sampled.contains(r.id) {
                assert forall|k: int| 0 <= k < n implies (#[trigger] readings[k]).id
                    != readings[n].id by {
                    assert(front[k].id != r.id);
                }
            }
        }
        if forall|j: int| #[trigger] is_first_reading(readings, j) ==> readings[j].own is None {
            assert forall|j: int| #[trigger] is_first_reading(front, j) implies front[j].own
                is None by {
                assert(is_first_reading(readings, j));
            }
        }
        if is_first_reading(readings, i) && readings[i].own is Some && (forall|j: int|
            0 <= j < i && #[trigger] is_first_reading(readings, j) ==> readings[j].own is None) {
            if i < n {
                assert(is_first_reading(front, i));
                assert forall|j: int| 0 <= j < i && #[trigger] is_first_reading(front, j) implies
                    front[j].own is None by {
                    assert(is_first_reading(readings, j));
                }
            } else {
                assert forall|j: int| #[trigger] is_first_reading(front, j) implies front[j].own
                    is None by {
                    assert(is_first_reading(readings, j));
                }
            }
        }
    }
}

/// Whether a text first stands at a place in a list.
pub open spec fn stands_first(list: Seq<Seq<char>>, at: int, text: Seq<char>) -> bool {
    &&& 0 <= at < list.len()
    &&& list[at] == text
    &&& forall|i: int| 0 <= i < at ==> #[trigger] list[i] != text
}

proof fn lemma_places(list: Seq<Seq<char>>, without: Seq<Seq<char>>) -> (places: Seq<int>)
    ensures
        places.len() == firsts(list, without).len(),
        forall|i: int|
            0 <= i < places.len() ==> stands_first(
                list,
                #[trigger] places[i],
                firsts(list, without)[i],
            ),
        forall|i: int, j: int| 0 <= i < j < places.len() ==> places[i] < places[j],
    decreases list.len(),
{
    if list.len() == 0 {
        Seq::empty()
    } else {
        let short = list.drop_last();
        let kept = firsts(short, without);
        let before = lemma_places(short, without);
        assert forall|i: int| 0 <= i < before.len() implies stands_first(
            list,
            #[trigger] before[i],
            kept[i],
        ) by {
            assert(stands_first(short, before[i], kept[i]));
            assert forall|k: int| 0 <= k < before[i] implies #[trigger] list[k] != kept[i] by {
                assert(short[k] != kept[i]);
            }
        }
        if without.contains(list.last()) || kept.contains(list.last()) {
            before
        } else {
            lemma_firsts(short, without);
            let n = list.len() - 1;
            assert forall|k: int| 0 <= k < n implies #[trigger] list[k] != list.last() by {
                assert(short[k] == list[k]);
                if short[k] == list.last() {
                    assert(short.contains(list.last()));
                }
            }
            assert(stands_first(list, n, list.last()));
            let places = before.push(n);
            assert forall|i: int| 0 <= i < places.len() implies stands_first(
                list,
                #[trigger] places[i],
                firsts(list, without)[i],
            ) by {
                if i < before.len() {
                    assert(places[i] == before[i]);
                }
            }
            assert forall|i: int, j: int| 0 <= i < j < places.len() implies places[i]
                < places[j] by {
                assert(stands_first(list, places[i], firsts(list, without)[i]));
                if j < before.len() {
                    assert(before[i] < before[j]);
                } else {
                    assert(stands_first(short, before[i], kept[i]));
                }
            }
            places
        }
    }
}

/// Peers are listed in the order in which each is first named.
pub proof fn law_peers_are_listed_as_first_named(
    list: Seq<Seq<char>>,
    without: Seq<Seq<char>>,
    i: int,
    j: int,
)
    requires
        0 <= i < j < firsts(list, without).len(),
    ensures
        exists|a: int, b: int|
            a < b && #[trigger] stands_first(list, a, firsts(list, without)[i])
                && #[trigger] stands_first(list, b, firsts(list, without)[j]),
{
    let places = lemma_places(list, without);
    assert(stands_first(list, places[i], firsts(list, without)[i]));
    assert(stands_first(list, places[j], firsts(list, without)[j]));
}

/// A row shows what the peer's card says, and where and how the peer is reached.
pub proof fn law_a_row_shows_the_card(
    s: SwarmView,
    k: int,
    role: Seq<char>,
    flags: Seq<char>,
    fallback: Seq<char>,
    candidate: CandidateView,
)
    requires
        one_card_each(s.cards),
        0 <= k < s.cards.len(),
    ensures
        ({
            let card = s.cards[k];
            row_of(s, card.endpoint, role, flags, fallback, candidate) == (RowView {
                id: card.endpoint,
                role,
                flags,
                client: card.client,
                version: Some(card.version),
                runtime: Some(card.runtime),
                app_role: card.role,
                address: candidate.address,
                kind: candidate.kind,
                proto: if card.transport.len() > 0 {
                    card.transport
                } else {
                    fallback
                },
                serving: card.serving,
                tree: card.tree,
            })
        }),
{
    lemma_card_of(s.cards, s.cards[k]);
}

/// A row of a peer without a card shows how it is reached and nothing else of it,
/// but for this peer itself, whose label is known.
pub proof fn law_a_row_without_a_card(
    s: SwarmView,
    id: Seq<char>,
    role: Seq<char>,
    flags: Seq<char>,
    fallback: Seq<char>,
    candidate: CandidateView,
)
    requires
        forall|k: int| 0 <= k < s.cards.len() ==> (#[trigger] s.cards[k]).endpoint != id,
    ensures
        row_of(s, id, role, flags, fallback, candidate) == (RowView {
            id,
            role,
            flags,
            client: if id == s.local {
                "agent-share"@ + " v"@ + s.version + " ("@ + "browser"@ + ", "@ + s.data_path + ")"@
            } else {
                "unknown"@
            },
            version: None,
            runtime: None,
            app_role: None,
            address: candidate.address,
            kind: candidate.kind,
            proto: fallback,
            serving: None,
            tree: None,
        }),
{
    lemma_no_card(s.cards, id);
}

/// This peer is listed first and the producer second. A peer with a live session is
/// shown as direct, with where it is reached; one known by its card alone as gossip,
/// without. Those with a session come before those without.
pub proof fn law_rows_show_how_peers_are_reached(s: SwarmView, i: int, j: int)
    ensures
        ({
            let rows = swarm_rows(s);
            let own = seen_of(s.addresses, s.local);
            let origin = seen_of(s.addresses, s.producer);
            &&& rows.len() >= 2
            &&& rows[0].id == s.local && rows[0].role == "self"@ && rows[0].flags == "*"@
            &&& rows[0].address == own.address && rows[0].kind == own.kind
            &&& rows[1].id == s.producer && rows[1].role == "producer"@
            &&& rows[1].flags == (if s.live.contains(s.producer) {
                "SD"@
            } else {
                "S"@
            })
            &&& rows[1].address == origin.address && rows[1].kind == origin.kind
            &&& 2 <= i < rows.len() && s.live.contains(rows[i].id) ==> {
                let seen = seen_of(s.addresses, rows[i].id);
                rows[i].role == "direct"@ && rows[i].flags == "D"@ && rows[i].address
                    == seen.address && rows[i].kind == seen.kind
            }
            &&& 2 <= i < rows.len() && !s.live.contains(rows[i].id) ==> rows[i].role == "gossip"@
                && rows[i].flags.len() == 0 && rows[i].address is None && rows[i].kind is None
            &&& 2 <= i < j < rows.len() && s.live.contains(rows[j].id) ==> s.live.contains(
                rows[i].id,
            )
        }),
{
    lemma_reached(s, i);
    lemma_reached(s, j);
}

proof fn lemma_reached(s: SwarmView, i: int)
    ensures
        2 <= i < swarm_rows(s).len() ==> (s.live.contains(swarm_rows(s)[i].id) <==> i < 2
            + direct_ids(s).len()),
        2 <= i < 2 + direct_ids(s).len() ==> swarm_rows(s)[i] == direct_row(
            s,
            direct_ids(s)[i - 2],
        ),
        2 + direct_ids(s).len() <= i < swarm_rows(s).len() ==> swarm_rows(s)[i] == gossip_row(
            s,
            gossip_ids(s)[i - 2 - direct_ids(s).len()],
        ),
{
    let pair = seq![s.local, s.producer];
    let direct = direct_ids(s);
    let gossip = gossip_ids(s);
    lemma_firsts(s.live, pair);
    lemma_firsts(endpoints(s.cards), pair + s.live);
    if 2 <= i < 2 + direct.len() {
        assert(s.live.contains(direct[i - 2]));
    } else if 2 <= i < swarm_rows(s).len() {
        let id = gossip[i - 2 - direct.len()];
        lemma_either(pair, s.live, id);
    }
}

/// The path that carries the bytes is the first one that is selected; where none is,
/// there is none.
pub proof fn law_the_selected_path_is_shown(paths: Seq<NetPath>, i: int)
    ensures
        0 <= i < paths.len() && paths[i].selected && (forall|j: int|
            0 <= j < i ==> !(#[trigger] paths[j]).selected) ==> selected_label(paths) == Some(
            label_of(paths[i].kind),
        ),
        (forall|j: int| 0 <= j < paths.len() ==> !(#[trigger] paths[j]).selected)
            ==> selected_label(paths) is None,
    decreases paths.len(),
{
    if paths.len() > 0 && !paths[0].selected {
        let rest = paths.skip(1);
        law_the_selected_path_is_shown(rest, i - 1);
        if 0 <= i < paths.len() && paths[i].selected && (forall|j: int|
            0 <= j < i ==> !(#[trigger] paths[j]).selected) {
            assert forall|j: int| 0 <= j < i - 1 implies !(#[trigger] rest[j]).selected by {
                assert(!paths[j + 1].selected);
            }
            assert(rest[i - 1] == paths[i]);
        }
        if forall|j: int| 0 <= j < paths.len() ==> !(#[trigger] paths[j]).selected {
            assert forall|j: int| 0 <= j < rest.len() implies !(#[trigger] rest[j]).selected by {
                assert(!paths[j + 1].selected);
            }
        }
    }
}

/// Every path has the label of what it runs over, and a ticket's relays that of how
/// they were chosen.
pub proof fn law_paths_and_relays_have_labels(
    paths: Seq<NetPath>,
    i: int,
    text: String,
    ladder: Seq<Seq<char>>,
)
    ensures
        labels_of(paths).len() == paths.len(),
        0 <= i < paths.len() ==> labels_of(paths)[i] == label_of(paths[i].kind),
        label_of(PathKind::Relay) == "relay"@,
        label_of(PathKind::Ip) == "ip"@,
        label_of(PathKind::DataChannel) == "webrtc"@,
        label_of(PathKind::Other(text)) == text@,
        relay_label_of(RelayView::Disabled) == "disabled"@,
        relay_label_of(RelayView::Pinned) == "pinned"@,
        relay_label_of(RelayView::Custom(ladder)) == "custom"@,
{
}

/// A share is shown by the first and the last eight characters of its mesh key.
pub proof fn law_an_identity_is_the_ends_of_the_key(token: Seq<u8>)
    requires
        mesh_key(token).len() == 64,
    ensures
        shown_identity(token) == mesh_key(token).subrange(0, 8) + "…"@ + mesh_key(token).subrange(
            56,
            64,
        ),
{
    assert(mesh_key(token).take(8) =~= mesh_key(token).subrange(0, 8));
    assert(mesh_key(token).skip(56) =~= mesh_key(token).subrange(56, 64));
}

} // verus!
