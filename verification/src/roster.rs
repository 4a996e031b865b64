//! Who is on a share's mesh: the cards of the meta document, joined with the
//! names the mesh says are present.
use crate::client::{card_of_value, CardView, PeerCard};
use crate::json::{json_members, member, member_of, members};
use crate::text::{
    lemma_text_lt_total, lemma_text_lt_transitive, text_before, text_eq, text_lt,
};
use vstd::prelude::*;

verus! {

/// A card and the name it was published under.
#[derive(Clone, Debug, PartialEq, Eq)]
pub struct MetaEntry {
    pub nickname: String,
    pub card: PeerCard,
}

pub struct EntryView {
    pub nickname: Seq<char>,
    pub card: CardView,
}

impl View for MetaEntry {
    type V = EntryView;

    open spec fn view(&self) -> EntryView {
        EntryView { nickname: self.nickname@, card: self.card@ }
    }
}

pub open spec fn entry_views(s: Seq<MetaEntry>) -> Seq<EntryView> {
    Seq::new(s.len(), |i: int| s[i]@)
}

pub open spec fn card_views(s: Seq<PeerCard>) -> Seq<CardView> {
    Seq::new(s.len(), |i: int| s[i]@)
}

pub open spec fn named(names: Seq<String>, name: Seq<char>) -> bool {
    exists|i: int| 0 <= i < names.len() && (#[trigger] names[i])@ == name
}

/// The card a peer of the meta document has published, where it can be read.
pub open spec fn published_card(doc: serde_json::Value, nickname: Seq<char>) -> Option<CardView> {
    match member_of(doc, "peers"@) {
        None => None,
        Some(peers) => match member_of(peers, nickname) {
            None => None,
            Some(peer) => match member_of(peer, "card"@) {
                None => None,
                Some(card) => card_of_value(card),
            },
        },
    }
}

/// Whether entries stand in the order of their nicknames, no two under one.
pub open spec fn by_nickname(entries: Seq<EntryView>) -> bool {
    forall|i: int, j: int|
        0 <= i < j < entries.len() ==> text_lt(
            (#[trigger] entries[i]).nickname,
            (#[trigger] entries[j]).nickname,
        )
}

/// Whether some entry stands under a nickname.
pub open spec fn has_nickname(entries: Seq<EntryView>, name: Seq<char>) -> bool {
    exists|i: int| 0 <= i < entries.len() && (#[trigger] entries[i]).nickname == name
}

/// Puts an entry in its place by nickname.
fn put_by_nickname(entries: &mut Vec<MetaEntry>, entry: MetaEntry)
    requires
        by_nickname(entry_views(old(entries)@)),
        !has_nickname(entry_views(old(entries)@), entry@.nickname),
    ensures
        by_nickname(entry_views(final(entries)@)),
        exists|at: int|
            0 <= at <= old(entries)@.len() && entry_views(final(entries)@) == #[trigger] entry_views(
                old(entries)@,
            ).insert(at, entry@),
{
    let ghost was = entry_views(entries@);
    let ghost v = entry@;
    let mut at: usize = 0;
    while at < entries.len() && text_before(
        entries[at].nickname.as_str(),
        entry.nickname.as_str(),
    )
        invariant
            0 <= at <= entries@.len(),
            was == entry_views(entries@),
            v == entry@,
            forall|k: int| 0 <= k < at ==> text_lt((#[trigger] was[k]).nickname, v.nickname),
        decreases entries@.len() - at,
    {
        assert(was[at as int] == entries@[at as int]@);
        at += 1;
    }
    proof {
        assert forall|k: int| at <= k < was.len() implies text_lt(
            v.nickname,
            (#[trigger] was[k]).nickname,
        ) by {
            assert(was[at as int] == entries@[at as int]@);
            assert(was[at as int].nickname != v.nickname);
            lemma_text_lt_total(v.nickname, was[at as int].nickname);
            if k > at {
                lemma_text_lt_transitive(v.nickname, was[at as int].nickname, was[k].nickname);
            }
        }
    }
    entries.insert(at, entry);
    proof {
        let now = entry_views(entries@);
        assert(now =~= was.insert(at as int, v));
        assert forall|i: int, j: int| 0 <= i < j < now.len() implies text_lt(
            (#[trigger] now[i]).nickname,
            (#[trigger] now[j]).nickname,
        ) by {
            if i < at {
                assert(now[i] == was[i]);
            } else if i > at {
                assert(now[i] == was[i - 1]);
            }
            if j < at {
                assert(now[j] == was[j]);
            } else if j > at {
                assert(now[j] == was[j - 1]);
            }
        }
    }
}

/// The entries of a meta document, in the order of their nicknames: one for each
/// peer whose card can be read. A peer whose card cannot costs only that peer.
#[must_use]
pub fn entries_from_meta(doc: &serde_json::Value) -> (entries: Vec<MetaEntry>)
    ensures
        by_nickname(entry_views(entries@)),
        forall|i: int|
            0 <= i < entries@.len() ==> published_card(
                *doc,
                (#[trigger] entries@[i]).nickname@,
            ) == Some(entries@[i].card@),
        forall|name: Seq<char>| #[trigger]
            published_card(*doc, name) is Some ==> has_nickname(entry_views(entries@), name),
{
    let mut entries: Vec<MetaEntry> = Vec::new();
    let peers = match member(doc, "peers") {
        Some(peers) => peers,
        None => return entries,
    };
    let all = members(peers);
    let mut k: usize = 0;
    while k < all.len()
        invariant
            0 <= k <= all@.len(),
            member_of(*doc, "peers"@) == Some(*peers),
            json_members(*peers) matches Some(m) ==> {
                &&& forall|i: int|
                    0 <= i < all@.len() ==> m.contains_key((#[trigger] all@[i]).0@)
                        && m[all@[i].0@] == *all@[i].1
                &&& forall|i: int, j: int|
                    0 <= i < j < all@.len() ==> (#[trigger] all@[i]).0@ != (#[trigger] all@[j]).0@
            },
            json_members(*peers) is None ==> all@.len() == 0,
            by_nickname(entry_views(entries@)),
            forall|i: int|
                0 <= i < entries@.len() ==> published_card(
                    *doc,
                    (#[trigger] entries@[i]).nickname@,
                ) == Some(entries@[i].card@),
            forall|i: int|
                0 <= i < entries@.len() ==> exists|j: int|
                    0 <= j < k && (#[trigger] all@[j]).0@ == (#[trigger] entries@[i]).nickname@,
            forall|j: int|
                0 <= j < k && published_card(*doc, (#[trigger] all@[j]).0@) is Some
                    ==> has_nickname(entry_views(entries@), all@[j].0@),
        decreases all@.len() - k,
    {
        let peer = all[k].1;
        let ghost name = all@[k as int].0@;
        let ghost before = entries@;
        assert(member_of(*peers, name) == Some(*peer));
        let found = match member(peer, "card") {
            Some(card) => PeerCard::from_card_value(card),
            None => None,
        };
        match found {
            Some(card) => {
                let entry = MetaEntry { nickname: all[k].0.clone(), card };
                let ghost v = entry@;
                let ghost was = entry_views(before);
                proof {
                    assert forall|i: int| 0 <= i < was.len() implies (#[trigger] was[i]).nickname
                        != name by {
                        assert(was[i] == before[i]@);
                        let j = choose|j: int|
                            0 <= j < k && (#[trigger] all@[j]).0@ == before[i].nickname@;
                        assert(all@[j].0@ != all@[k as int].0@);
                    }
                }
                put_by_nickname(&mut entries, entry);
                proof {
                    let now = entry_views(entries@);
                    let at = choose|at: int|
                        0 <= at <= before.len() && now == #[trigger] was.insert(at, v);
                    assert forall|i: int| 0 <= i < entries@.len() implies {
                        &&& published_card(*doc, (#[trigger] entries@[i]).nickname@) == Some(
                            entries@[i].card@,
                        )
                        &&& exists|j: int|
                            0 <= j < k + 1 && (#[trigger] all@[j]).0@ == entries@[i].nickname@
                    } by {
                        assert(now[i] == entries@[i]@);
                        if i == at {
                            assert(now[i] == v);
                            assert(all@[k as int].0@ == entries@[i].nickname@);
                        } else {
                            let l = if i < at {
                                i
                            } else {
                                i - 1
                            };
                            assert(now[i] == was[l]);
                            assert(was[l] == before[l]@);
                            let j = choose|j: int|
                                0 <= j < k && (#[trigger] all@[j]).0@ == before[l].nickname@;
                            assert(all@[j].0@ == entries@[i].nickname@);
                        }
                    }
                    assert forall|j: int|
                        0 <= j < k + 1 && published_card(
                            *doc,
                            (#[trigger] all@[j]).0@,
                        ) is Some implies has_nickname(now, all@[j].0@) by {
                        if j < k {
                            let l = choose|l: int|
                                0 <= l < was.len() && (#[trigger] was[l]).nickname == all@[j].0@;
                            assert(now[if l < at {
                                l
                            } else {
                                l + 1
                            }] == was[l]);
                        } else {
                            assert(now[at] == v);
                        }
                    }
                }
            },
            None => {},
        }
        k += 1;
    }
    proof {
        assert forall|name: Seq<char>| #[trigger]
            published_card(*doc, name) is Some implies has_nickname(
            entry_views(entries@),
            name,
        ) by {
            let m = json_members(*peers)->Some_0;
            assert(m.contains_key(name));
            let j = choose|j: int| 0 <= j < all@.len() && (#[trigger] all@[j]).0@ == name;
            assert(published_card(*doc, all@[j].0@) is Some);
        }
    }
    entries
}

/// Whether an entry's peer is present.
pub open spec fn is_live(entries: Seq<EntryView>, live: Seq<String>, i: int) -> bool {
    0 <= i < entries.len() && named(live, entries[i].nickname)
}

/// Whether entry `j` comes before entry `i` for the endpoint they share: by
/// nickname, then by position.
pub open spec fn precedes(entries: Seq<EntryView>, j: int, i: int) -> bool {
    text_lt(entries[j].nickname, entries[i].nickname) || (entries[j].nickname
        == entries[i].nickname && j < i)
}

/// Whether entry `i` speaks for its endpoint: its peer is present, and no
/// present peer of the same endpoint has a smaller nickname.
pub open spec fn speaks(entries: Seq<EntryView>, live: Seq<String>, i: int) -> bool {
    is_live(entries, live, i) && forall|j: int| #[trigger]
        is_live(entries, live, j) && entries[j].card.endpoint == entries[i].card.endpoint
            ==> !precedes(entries, j, i)
}

/// Whether a card is the one that speaks for its endpoint.
pub open spec fn is_spoken(entries: Seq<EntryView>, live: Seq<String>, card: CardView) -> bool {
    exists|i: int| #[trigger] speaks(entries, live, i) && entries[i].card == card
}

pub open spec fn has_endpoint(cards: Seq<CardView>, endpoint: Seq<char>) -> bool {
    exists|k: int| 0 <= k < cards.len() && (#[trigger] cards[k]).endpoint == endpoint
}

/// Whether card `a` comes before card `b` by endpoint.
pub open spec fn endpoint_lt(cards: Seq<CardView>, a: int, b: int) -> bool {
    text_lt(cards[a].endpoint, cards[b].endpoint)
}

pub open spec fn by_endpoint(cards: Seq<CardView>) -> bool {
    forall|a: int, b: int| 0 <= a < b < cards.len() ==> #[trigger] endpoint_lt(cards, a, b)
}

/// Whether `cards` are the present peers: one card per endpoint, in endpoint
/// order, each the card that speaks for its endpoint.
pub open spec fn are_live_cards(
    entries: Seq<EntryView>,
    live: Seq<String>,
    cards: Seq<CardView>,
) -> bool {
    &&& by_endpoint(cards)
    &&& forall|k: int| 0 <= k < cards.len() ==> is_spoken(entries, live, #[trigger] cards[k])
    &&& forall|i: int| #[trigger]
        is_live(entries, live, i) ==> has_endpoint(cards, entries[i].card.endpoint)
}

fn is_named(names: &[String], name: &str) -> (found: bool)
    ensures
        found == named(names@, name@),
{
    let mut i: usize = 0;
    while i < names.len()
        invariant
            0 <= i <= names@.len(),
            forall|k: int| 0 <= k < i ==> (#[trigger] names@[k])@ != name@,
        decreases names@.len() - i,
    {
        if text_eq(names[i].as_str(), name) {
            return true;
        }
        i += 1;
    }
    false
}

/// The cards of the peers that are present, one per endpoint, in endpoint order.
/// Where one endpoint was published under several present names, the smallest
/// name speaks for it.
#[must_use]
pub fn live_cards(entries: &[MetaEntry], live: &[String]) -> (cards: Vec<PeerCard>)
    ensures
        are_live_cards(entry_views(entries@), live@, card_views(cards@)),
{
    let ghost all = entry_views(entries@);
    // Positions of the entries that speak so far, in endpoint order.
    let mut best: Vec<usize> = Vec::new();
    let mut i: usize = 0;
    while i < entries.len()
        invariant
            0 <= i <= entries@.len(),
            all == entry_views(entries@),
            forall|k: int| 0 <= k < best@.len() ==> (#[trigger] best@[k]) < i,
            speakers(all, live@, best@, i as int),
        decreases entries@.len() - i,
    {
        if is_named(live, entries[i].nickname.as_str()) {
            let endpoint = entries[i].card.endpoint.as_str();
            let mut at: usize = 0;
            while at < best.len() && text_before(
                entries[best[at]].card.endpoint.as_str(),
                endpoint,
            )
                invariant
                    0 <= at <= best@.len(),
                    i < entries@.len(),
                    all == entry_views(entries@),
                    endpoint@ == all[i as int].card.endpoint,
                    forall|k: int| 0 <= k < best@.len() ==> (#[trigger] best@[k]) < i,
                    forall|k: int|
                        0 <= k < at ==> text_lt(
                            all[(#[trigger] best@[k]) as int].card.endpoint,
                            endpoint@,
                        ),
                decreases best@.len() - at,
            {
                at += 1;
            }
            let ghost before = best@;
            if at < best.len() && text_eq(entries[best[at]].card.endpoint.as_str(), endpoint) {
                if text_before(
                    entries[i].nickname.as_str(),
                    entries[best[at]].nickname.as_str(),
                ) {
                    best[at] = i;
                    proof {
                        lemma_replace(all, live@, before, i as int, at as int);
                    }
                } else {
                    proof {
                        lemma_keep(all, live@, before, i as int, at as int);
                    }
                }
            } else {
                proof {
                    if at < before.len() {
                        lemma_text_lt_total(
                            all[before[at as int] as int].card.endpoint,
                            endpoint@,
                        );
                    }
                    lemma_add(all, live@, before, i as int, at as int);
                }
                best.insert(at, i);
            }
        } else {
            proof {
                lemma_skip(all, live@, best@, i as int);
            }
        }
        i += 1;
    }
    let mut cards: Vec<PeerCard> = Vec::new();
    let mut k: usize = 0;
    while k < best.len()
        invariant
            0 <= k <= best@.len(),
            all == entry_views(entries@),
            forall|j: int| 0 <= j < best@.len() ==> (#[trigger] best@[j]) < entries@.len(),
            cards@.len() == k,
            forall|j: int| 0 <= j < k ==> (#[trigger] cards@[j])@ == all[best@[j] as int].card,
        decreases best@.len() - k,
    {
        cards.push(entries[best[k]].card.copy());
        k += 1;
    }
    proof {
        assert(card_views(cards@) =~= picks(all, best@));
        lemma_speakers_done(all, live@, best@, card_views(cards@));
    }
    cards
}

/// Whether an entry among the first `n` speaks for its endpoint among those.
spec fn speaks_upto(entries: Seq<EntryView>, live: Seq<String>, i: int, n: int) -> bool {
    is_live(entries, live, i) && i < n && forall|j: int| #[trigger]
        is_live(entries, live, j) && j < n && entries[j].card.endpoint == entries[i].card.endpoint
            ==> !precedes(entries, j, i)
}

spec fn picks(entries: Seq<EntryView>, best: Seq<usize>) -> Seq<CardView> {
    Seq::new(best.len(), |k: int| entries[best[k] as int].card)
}

spec fn speakers(entries: Seq<EntryView>, live: Seq<String>, best: Seq<usize>, n: int) -> bool {
    &&& by_endpoint(picks(entries, best))
    &&& forall|k: int|
        0 <= k < best.len() ==> speaks_upto(entries, live, (#[trigger] best[k]) as int, n)
    &&& forall|i: int| #[trigger]
        is_live(entries, live, i) && i < n ==> has_endpoint(
            picks(entries, best),
            entries[i].card.endpoint,
        )
}

proof fn lemma_skip(entries: Seq<EntryView>, live: Seq<String>, best: Seq<usize>, n: int)
    requires
        speakers(entries, live, best, n),
        0 <= n < entries.len(),
        !is_live(entries, live, n),
    ensures
        speakers(entries, live, best, n + 1),
{
    assert forall|k: int| 0 <= k < best.len() implies speaks_upto(
        entries,
        live,
        (#[trigger] best[k]) as int,
        n + 1,
    ) by {
        assert(speaks_upto(entries, live, best[k] as int, n));
    }
}

proof fn lemma_other_endpoint(cards: Seq<CardView>, at: int, k: int)
    requires
        by_endpoint(cards),
        0 <= at < cards.len(),
        0 <= k < cards.len(),
        k != at,
    ensures
        cards[k].endpoint != cards[at].endpoint,
{
    lemma_text_lt_total(cards[at].endpoint, cards[at].endpoint);
    if k < at {
        assert(endpoint_lt(cards, k, at));
    } else {
        assert(endpoint_lt(cards, at, k));
    }
}

proof fn lemma_still_speaks(
    entries: Seq<EntryView>,
    live: Seq<String>,
    i: int,
    n: int,
)
    requires
        speaks_upto(entries, live, i, n),
        entries[n].card.endpoint != entries[i].card.endpoint || !precedes(entries, n, i),
    ensures
        speaks_upto(entries, live, i, n + 1),
{
}

proof fn lemma_keep(entries: Seq<EntryView>, live: Seq<String>, best: Seq<usize>, n: int, at: int)
    requires
        speakers(entries, live, best, n),
        0 <= n < entries.len(),
        is_live(entries, live, n),
        0 <= at < best.len(),
        forall|k: int| 0 <= k < best.len() ==> (#[trigger] best[k]) < n,
        entries[best[at] as int].card.endpoint == entries[n].card.endpoint,
        !text_lt(entries[n].nickname, entries[best[at] as int].nickname),
    ensures
        speakers(entries, live, best, n + 1),
{
    let cards = picks(entries, best);
    assert forall|k: int| 0 <= k < best.len() implies speaks_upto(
        entries,
        live,
        (#[trigger] best[k]) as int,
        n + 1,
    ) by {
        let i = best[k] as int;
        assert(speaks_upto(entries, live, i, n));
        if k != at {
            lemma_other_endpoint(cards, at, k);
            assert(cards[k].endpoint == entries[i].card.endpoint);
            assert(cards[at].endpoint == entries[n].card.endpoint);
        }
        lemma_still_speaks(entries, live, i, n);
    }
    assert forall|i: int| #[trigger] is_live(entries, live, i) && i < n + 1 implies has_endpoint(
        cards,
        entries[i].card.endpoint,
    ) by {
        if i == n {
            assert(cards[at].endpoint == entries[i].card.endpoint);
        }
    }
}

proof fn lemma_takes_over(entries: Seq<EntryView>, live: Seq<String>, old: int, n: int)
    requires
        speaks_upto(entries, live, old, n),
        is_live(entries, live, n),
        entries[old].card.endpoint == entries[n].card.endpoint,
        text_lt(entries[n].nickname, entries[old].nickname),
    ensures
        speaks_upto(entries, live, n, n + 1),
{
    assert forall|j: int| #[trigger]
        is_live(entries, live, j) && j < n + 1 && entries[j].card.endpoint
            == entries[n].card.endpoint implies !precedes(entries, j, n) by {
        if j < n {
            assert(!precedes(entries, j, old));
            lemma_text_lt_total(entries[j].nickname, entries[old].nickname);
            lemma_text_lt_total(entries[j].nickname, entries[n].nickname);
            if text_lt(entries[j].nickname, entries[n].nickname) {
                lemma_text_lt_transitive(
                    entries[j].nickname,
                    entries[n].nickname,
                    entries[old].nickname,
                );
            }
        } else {
            lemma_text_lt_total(entries[n].nickname, entries[n].nickname);
        }
    }
}

proof fn lemma_replace(
    entries: Seq<EntryView>,
    live: Seq<String>,
    best: Seq<usize>,
    n: int,
    at: int,
)
    requires
        speakers(entries, live, best, n),
        0 <= n < entries.len(),
        n <= usize::MAX,
        is_live(entries, live, n),
        0 <= at < best.len(),
        forall|k: int| 0 <= k < best.len() ==> (#[trigger] best[k]) < n,
        entries[best[at] as int].card.endpoint == entries[n].card.endpoint,
        text_lt(entries[n].nickname, entries[best[at] as int].nickname),
    ensures
        speakers(entries, live, best.update(at, n as usize), n + 1),
{
    let next = best.update(at, n as usize);
    let cards = picks(entries, best);
    let after = picks(entries, next);
    let old = best[at] as int;
    assert(speaks_upto(entries, live, old, n));
    assert(forall|k: int|
        0 <= k < cards.len() ==> (#[trigger] after[k]).endpoint == cards[k].endpoint);
    assert forall|a: int, b: int| 0 <= a < b < after.len() implies #[trigger] endpoint_lt(
        after,
        a,
        b,
    ) by {
        assert(endpoint_lt(cards, a, b));
    }
    assert forall|k: int| 0 <= k < next.len() implies speaks_upto(
        entries,
        live,
        (#[trigger] next[k]) as int,
        n + 1,
    ) by {
        if k == at {
            lemma_takes_over(entries, live, old, n);
        } else {
            let i = best[k] as int;
            assert(speaks_upto(entries, live, i, n));
            lemma_other_endpoint(cards, at, k);
            assert(cards[k].endpoint == entries[i].card.endpoint);
            lemma_still_speaks(entries, live, i, n);
        }
    }
    assert forall|i: int| #[trigger] is_live(entries, live, i) && i < n + 1 implies has_endpoint(
        after,
        entries[i].card.endpoint,
    ) by {
        if i == n {
            assert(after[at].endpoint == entries[i].card.endpoint);
        } else {
            let k = choose|k: int|
                0 <= k < cards.len() && (#[trigger] cards[k]).endpoint == entries[i].card.endpoint;
            assert(after[k].endpoint == entries[i].card.endpoint);
        }
    }
}

proof fn lemma_add_order(cards: Seq<CardView>, card: CardView, at: int)
    requires
        by_endpoint(cards),
        0 <= at <= cards.len(),
        forall|k: int| 0 <= k < at ==> text_lt((#[trigger] cards[k]).endpoint, card.endpoint),
        forall|k: int|
            at <= k < cards.len() ==> text_lt(card.endpoint, (#[trigger] cards[k]).endpoint),
    ensures
        by_endpoint(cards.insert(at, card)),
{
    let next = cards.insert(at, card);
    assert forall|a: int, b: int| 0 <= a < b < next.len() implies #[trigger] endpoint_lt(
        next,
        a,
        b,
    ) by {
        let pa = if a < at {
            a
        } else {
            a - 1
        };
        let pb = if b < at {
            b
        } else {
            b - 1
        };
        if a != at {
            assert(next[a] == cards[pa]);
        }
        if b != at {
            assert(next[b] == cards[pb]);
        }
        if a != at && b != at {
            assert(endpoint_lt(cards, pa, pb));
        }
    }
}

proof fn lemma_add(entries: Seq<EntryView>, live: Seq<String>, best: Seq<usize>, n: int, at: int)
    requires
        speakers(entries, live, best, n),
        0 <= n < entries.len(),
        n <= usize::MAX,
        is_live(entries, live, n),
        0 <= at <= best.len(),
        forall|k: int|
            0 <= k < at ==> text_lt(
                entries[(#[trigger] best[k]) as int].card.endpoint,
                entries[n].card.endpoint,
            ),
        at < best.len() ==> text_lt(
            entries[n].card.endpoint,
            entries[best[at] as int].card.endpoint,
        ),
    ensures
        speakers(entries, live, best.insert(at, n as usize), n + 1),
{
    let next = best.insert(at, n as usize);
    let cards = picks(entries, best);
    let card = entries[n].card;
    let after = picks(entries, next);
    assert(after =~= cards.insert(at, card));
    assert forall|k: int| 0 <= k < at implies text_lt(
        (#[trigger] cards[k]).endpoint,
        card.endpoint,
    ) by {
        assert(text_lt(entries[best[k] as int].card.endpoint, entries[n].card.endpoint));
    }
    assert forall|k: int| at <= k < cards.len() implies text_lt(
        card.endpoint,
        (#[trigger] cards[k]).endpoint,
    ) by {
        if k > at {
            assert(endpoint_lt(cards, at, k));
            lemma_text_lt_transitive(card.endpoint, cards[at].endpoint, cards[k].endpoint);
        }
    }
    lemma_add_order(cards, card, at);
    lemma_text_lt_total(card.endpoint, card.endpoint);
    assert forall|k: int| 0 <= k < cards.len() implies (#[trigger] cards[k]).endpoint
        != card.endpoint by {}
    assert(!has_endpoint(cards, card.endpoint));
    assert forall|k: int| 0 <= k < next.len() implies speaks_upto(
        entries,
        live,
        (#[trigger] next[k]) as int,
        n + 1,
    ) by {
        if k == at {
            assert forall|j: int| #[trigger]
                is_live(entries, live, j) && j < n + 1 && entries[j].card.endpoint
                    == card.endpoint implies !precedes(entries, j, n) by {
                if j == n {
                    lemma_text_lt_total(entries[n].nickname, entries[n].nickname);
                }
            }
        } else {
            let p = if k < at {
                k
            } else {
                k - 1
            };
            assert(next[k] == best[p]);
            assert(speaks_upto(entries, live, best[p] as int, n));
            assert(cards[p].endpoint != card.endpoint);
            lemma_still_speaks(entries, live, best[p] as int, n);
        }
    }
    assert forall|i: int| #[trigger] is_live(entries, live, i) && i < n + 1 implies has_endpoint(
        after,
        entries[i].card.endpoint,
    ) by {
        if i == n {
            assert(after[at] == card);
        } else {
            let k = choose|k: int|
                0 <= k < cards.len() && (#[trigger] cards[k]).endpoint == entries[i].card.endpoint;
            let q = if k < at {
                k
            } else {
                k + 1
            };
            assert(after[q] == cards[k]);
        }
    }
}

proof fn lemma_speakers_done(
    entries: Seq<EntryView>,
    live: Seq<String>,
    best: Seq<usize>,
    cards: Seq<CardView>,
)
    requires
        speakers(entries, live, best, entries.len() as int),
        cards == picks(entries, best),
    ensures
        are_live_cards(entries, live, cards),
{
    let n = entries.len() as int;
    assert forall|k: int| 0 <= k < cards.len() implies is_spoken(
        entries,
        live,
        #[trigger] cards[k],
    ) by {
        let i = best[k] as int;
        assert(speaks_upto(entries, live, i, n));
        assert(speaks(entries, live, i));
    }
}

/// The cards of a mesh, and who of them is present.
#[derive(Debug)]
pub struct Roster {
    entries: Vec<MetaEntry>,
    present: Vec<String>,
}

impl Default for Roster {
    fn default() -> (out: Self)
        ensures
            out.spec_entries().len() == 0,
            out.spec_present().len() == 0,
    {
        Roster { entries: Vec::new(), present: Vec::new() }
    }
}

impl Roster {
    pub closed spec fn spec_entries(&self) -> Seq<EntryView> {
        entry_views(self.entries@)
    }

    pub closed spec fn spec_present(&self) -> Seq<String> {
        self.present@
    }

    #[must_use]
    pub fn new(entries: Vec<MetaEntry>, present: Vec<String>) -> (out: Self)
        ensures
            out.spec_entries() == entry_views(entries@),
            out.spec_present() == present@,
    {
        Roster { entries, present }
    }

    /// The peers that are present.
    #[must_use]
    pub fn present(&self) -> (cards: Vec<PeerCard>)
        ensures
            are_live_cards(self.spec_entries(), self.spec_present(), card_views(cards@)),
    {
        live_cards(self.entries.as_slice(), self.present.as_slice())
    }

    /// Every card, whether or not its peer is present.
    #[must_use]
    pub fn all(&self) -> (cards: Vec<PeerCard>)
        ensures
            cards@.len() == self.spec_entries().len(),
            forall|i: int|
                0 <= i < cards@.len() ==> (#[trigger] cards@[i])@ == self.spec_entries()[i].card,
    {
        let mut cards: Vec<PeerCard> = Vec::new();
        let mut i: usize = 0;
        while i < self.entries.len()
            invariant
                0 <= i <= self.entries@.len(),
                cards@.len() == i,
                forall|k: int| 0 <= k < i ==> (#[trigger] cards@[k])@ == self.entries@[k]@.card,
            decreases self.entries@.len() - i,
        {
            cards.push(self.entries[i].card.copy());
            i += 1;
        }
        cards
    }

    /// The first card published for an endpoint, whether or not its peer is
    /// present.
    #[must_use]
    pub fn card_for(&self, endpoint: &str) -> (card: Option<PeerCard>)
        ensures
            match card {
                Some(c) => exists|i: int|
                    {
                        &&& 0 <= i < self.spec_entries().len()
                        &&& (#[trigger] self.spec_entries()[i]).card == c@
                        &&& c@.endpoint == endpoint@
                        &&& forall|j: int|
                            0 <= j < i ==> (#[trigger] self.spec_entries()[j]).card.endpoint
                                != endpoint@
                    },
                None => forall|i: int|
                    0 <= i < self.spec_entries().len() ==> (
                    #[trigger] self.spec_entries()[i]).card.endpoint != endpoint@,
            },
    {
        let mut i: usize = 0;
        while i < self.entries.len()
            invariant
                0 <= i <= self.entries@.len(),
                forall|k: int|
                    0 <= k < i ==> (#[trigger] self.spec_entries()[k]).card.endpoint != endpoint@,
            decreases self.entries@.len() - i,
        {
            assert(self.spec_entries()[i as int] == self.entries@[i as int]@);
            if text_eq(self.entries[i].card.endpoint.as_str(), endpoint) {
                return Some(self.entries[i].card.copy());
            }
            i += 1;
        }
        None
    }
}

/// One peer, one card: no endpoint is listed twice, and nobody is listed whose
/// name is not present.
pub proof fn law_live_cards_are_present_peers(
    entries: Seq<EntryView>,
    live: Seq<String>,
    cards: Seq<CardView>,
    a: int,
    b: int,
)
    requires
        are_live_cards(entries, live, cards),
        0 <= a < cards.len(),
        0 <= b < cards.len(),
    ensures
        cards[a].endpoint == cards[b].endpoint ==> a == b,
        exists|i: int| #[trigger] is_live(entries, live, i) && entries[i].card == cards[a],
{
    if a != b {
        lemma_other_endpoint(cards, a, b);
    }
    assert(is_spoken(entries, live, cards[a]));
    let i = choose|i: int| #[trigger] speaks(entries, live, i) && entries[i].card == cards[a];
    assert(is_live(entries, live, i));
}

proof fn lemma_same_endpoints(
    first: Seq<EntryView>,
    second: Seq<EntryView>,
    live: Seq<String>,
    a: Seq<CardView>,
    b: Seq<CardView>,
    endpoint: Seq<char>,
)
    requires
        are_live_cards(first, live, a),
        are_live_cards(second, live, b),
        forall|e: EntryView| first.contains(e) ==> #[trigger] second.contains(e),
        has_endpoint(a, endpoint),
    ensures
        has_endpoint(b, endpoint),
{
    let k = choose|k: int| 0 <= k < a.len() && (#[trigger] a[k]).endpoint == endpoint;
    assert(is_spoken(first, live, a[k]));
    let i = choose|i: int| #[trigger] speaks(first, live, i) && first[i].card == a[k];
    assert(first.contains(first[i]));
    assert(second.contains(first[i]));
    let m = choose|m: int| 0 <= m < second.len() && second[m] == first[i];
    assert(is_live(second, live, m));
}

proof fn lemma_endpoint_order_unique(a: Seq<CardView>, b: Seq<CardView>)
    requires
        by_endpoint(a),
        by_endpoint(b),
        forall|e: Seq<char>| #[trigger] has_endpoint(a, e) == has_endpoint(b, e),
    ensures
        a.len() == b.len(),
        forall|k: int| 0 <= k < a.len() ==> (#[trigger] a[k]).endpoint == b[k].endpoint,
    decreases a.len(),
{
    if a.len() == 0 {
        if b.len() > 0 {
            assert(has_endpoint(b, b[0].endpoint));
            assert(has_endpoint(a, b[0].endpoint));
        }
    } else {
        let ea = a.last().endpoint;
        assert(a[a.len() - 1].endpoint == ea);
        assert(has_endpoint(a, ea));
        assert(has_endpoint(b, ea));
        let la = choose|l: int| 0 <= l < b.len() && (#[trigger] b[l]).endpoint == ea;
        let eb = b.last().endpoint;
        assert(b[b.len() - 1].endpoint == eb);
        assert(has_endpoint(b, eb));
        assert(has_endpoint(a, eb));
        let lb = choose|l: int| 0 <= l < a.len() && (#[trigger] a[l]).endpoint == eb;
        lemma_text_lt_total(ea, eb);
        if la < b.len() - 1 {
            assert(endpoint_lt(b, la, b.len() - 1));
        }
        if lb < a.len() - 1 {
            assert(endpoint_lt(a, lb, a.len() - 1));
        }
        assert(ea == eb);
        let fa = a.drop_last();
        let fb = b.drop_last();
        lemma_drop_last(a);
        lemma_drop_last(b);
        assert forall|e: Seq<char>| #[trigger] has_endpoint(fa, e) == has_endpoint(fb, e) by {
            assert(has_endpoint(a, e) == has_endpoint(b, e));
            assert(has_endpoint(fa, e) == (has_endpoint(a, e) && e != ea));
            assert(has_endpoint(fb, e) == (has_endpoint(b, e) && e != eb));
        }
        lemma_endpoint_order_unique(fa, fb);
        assert forall|k: int| 0 <= k < a.len() implies (#[trigger] a[k]).endpoint
            == b[k].endpoint by {
            if k < fa.len() {
                assert(fa[k].endpoint == fb[k].endpoint);
            }
        }
    }
}

proof fn lemma_drop_last(a: Seq<CardView>)
    requires
        by_endpoint(a),
        a.len() > 0,
    ensures
        by_endpoint(a.drop_last()),
        forall|e: Seq<char>| #[trigger]
            has_endpoint(a.drop_last(), e) == (has_endpoint(a, e) && e != a.last().endpoint),
{
    let f = a.drop_last();
    assert forall|i: int, j: int| 0 <= i < j < f.len() implies #[trigger] endpoint_lt(f, i, j) by {
        assert(endpoint_lt(a, i, j));
    }
    assert forall|e: Seq<char>| #[trigger]
        has_endpoint(f, e) == (has_endpoint(a, e) && e != a.last().endpoint) by {
        if has_endpoint(f, e) {
            let k = choose|k: int| 0 <= k < f.len() && (#[trigger] f[k]).endpoint == e;
            assert(a[k].endpoint == e);
            lemma_other_endpoint(a, a.len() - 1, k);
        }
        if has_endpoint(a, e) && e != a.last().endpoint {
            let k = choose|k: int| 0 <= k < a.len() && (#[trigger] a[k]).endpoint == e;
            assert(f[k].endpoint == e);
        }
    }
}

proof fn lemma_same_speaker(
    first: Seq<EntryView>,
    second: Seq<EntryView>,
    live: Seq<String>,
    x: CardView,
    y: CardView,
)
    requires
        is_spoken(first, live, x),
        is_spoken(second, live, y),
        x.endpoint == y.endpoint,
        forall|e: EntryView| #[trigger] first.contains(e) == second.contains(e),
        forall|i: int, j: int|
            0 <= i < first.len() && 0 <= j < first.len() && (#[trigger] first[i]).nickname == (
            #[trigger] first[j]).nickname ==> i == j,
    ensures
        x == y,
{
    let i = choose|i: int| #[trigger] speaks(first, live, i) && first[i].card == x;
    let j = choose|j: int| #[trigger] speaks(second, live, j) && second[j].card == y;
    assert(second.contains(second[j]));
    assert(first.contains(second[j]));
    let l = choose|l: int| 0 <= l < first.len() && first[l] == second[j];
    assert(first.contains(first[i]));
    assert(second.contains(first[i]));
    let m = choose|m: int| 0 <= m < second.len() && second[m] == first[i];
    assert(is_live(first, live, l));
    assert(is_live(second, live, m));
    assert(!precedes(first, l, i));
    assert(!precedes(second, m, j));
    lemma_text_lt_total(first[l].nickname, first[i].nickname);
    assert(first[l].nickname == first[i].nickname);
}

/// The list is a function of the entries and the names, not of the order the
/// entries come in: where nicknames are unique, any two orders give one list.
pub proof fn law_live_cards_ignore_order(
    first: Seq<EntryView>,
    second: Seq<EntryView>,
    live: Seq<String>,
    a: Seq<CardView>,
    b: Seq<CardView>,
)
    requires
        are_live_cards(first, live, a),
        are_live_cards(second, live, b),
        forall|e: EntryView| #[trigger] first.contains(e) == second.contains(e),
        forall|i: int, j: int|
            0 <= i < first.len() && 0 <= j < first.len() && (#[trigger] first[i]).nickname == (
            #[trigger] first[j]).nickname ==> i == j,
    ensures
        a == b,
{
    assert forall|e: Seq<char>| #[trigger] has_endpoint(a, e) == has_endpoint(b, e) by {
        if has_endpoint(a, e) {
            lemma_same_endpoints(first, second, live, a, b, e);
        }
        if has_endpoint(b, e) {
            lemma_same_endpoints(second, first, live, b, a, e);
        }
    }
    lemma_endpoint_order_unique(a, b);
    assert forall|k: int| 0 <= k < a.len() implies a[k] == b[k] by {
        assert(is_spoken(first, live, a[k]));
        assert(is_spoken(second, live, b[k]));
        assert(a[k].endpoint == b[k].endpoint);
        lemma_same_speaker(first, second, live, a[k], b[k]);
    }
    assert(a =~= b);
}

/// A peer's card is what stands in the document under `peers`, the peer's name and
/// `card`, and there is none where any of them is missing.
pub proof fn law_a_card_stands_under_its_name(
    doc: serde_json::Value,
    peers: serde_json::Value,
    peer: serde_json::Value,
    card: serde_json::Value,
    name: Seq<char>,
)
    ensures
        member_of(doc, "peers"@) == Some(peers) && member_of(peers, name) == Some(peer)
            && member_of(peer, "card"@) == Some(card) ==> published_card(doc, name)
            == card_of_value(card),
        member_of(doc, "peers"@) is None ==> published_card(doc, name) is None,
        member_of(doc, "peers"@) == Some(peers) && member_of(peers, name) is None
            ==> published_card(doc, name) is None,
        member_of(doc, "peers"@) == Some(peers) && member_of(peers, name) == Some(peer)
            && member_of(peer, "card"@) is None ==> published_card(doc, name) is None,
{
}

} // verus!
