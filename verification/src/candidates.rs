//! Who is dialled in the origin's place: the peers that vouch for a share, the
//! tree most of them vouch for, and the order they are tried in.
use crate::client::{CardView, PeerCard};
use crate::known_seeders::{known_views, texts, KnownSeeder, KnownView};
use crate::roster::card_views;
use crate::text::text_eq;
use vstd::prelude::*;

verus! {

/// How many candidates one attempt dials.
pub const SEEDER_RACE_WIDTH: usize = 6;

/// How far apart the dials of a race start, in milliseconds.
pub const SEEDER_RACE_STAGGER_MS: u64 = 2_000;

/// How far apart the dials of known seeders start, in milliseconds.
pub const KNOWN_SEEDER_STAGGER_MS: u64 = 500;

/// Whether a card vouches for a share: it names a tree and what of it can be
/// served, and it is not this peer's own.
pub open spec fn vouches(card: CardView, own: Seq<char>) -> bool {
    card.tree is Some && card.serving is Some && card.endpoint != own
}

/// The cards that vouch, in their order.
pub open spec fn vouching(cards: Seq<CardView>, own: Seq<char>) -> Seq<CardView>
    decreases cards.len(),
{
    if cards.len() == 0 {
        Seq::empty()
    } else if vouches(cards.last(), own) {
        vouching(cards.drop_last(), own).push(cards.last())
    } else {
        vouching(cards.drop_last(), own)
    }
}

/// The cards of other peers that vouch for the share.
#[must_use]
pub fn vouchers(cards: &[PeerCard], own: &str) -> (out: Vec<PeerCard>)
    ensures
        card_views(out@) == vouching(card_views(cards@), own@),
{
    let ghost all = card_views(cards@);
    let mut out: Vec<PeerCard> = Vec::new();
    let mut i: usize = 0;
    assert(card_views(out@) =~= vouching(all.take(0), own@));
    while i < cards.len()
        invariant
            0 <= i <= cards@.len(),
            all == card_views(cards@),
            card_views(out@) == vouching(all.take(i as int), own@),
        decreases cards@.len() - i,
    {
        let card = &cards[i];
        let ghost was = card_views(out@);
        assert(all.take(i as int + 1).drop_last() =~= all.take(i as int));
        assert(all[i as int] == card@);
        if card.tree.is_some() && card.serving.is_some() && !text_eq(card.endpoint.as_str(), own) {
            out.push(card.copy());
            assert(card_views(out@) =~= was.push(card@));
        }
        i += 1;
    }
    assert(all.take(i as int) =~= all);
    out
}

/// How many cards name a tree.
pub open spec fn votes(cards: Seq<CardView>, tree: Seq<char>) -> nat
    decreases cards.len(),
{
    if cards.len() == 0 {
        0
    } else {
        votes(cards.drop_last(), tree) + (if cards.last().tree == Some(tree) {
            1nat
        } else {
            0nat
        })
    }
}

/// The tree with the most votes of those that the first `n` cards name; the
/// earliest of several with as many.
pub open spec fn leader(cards: Seq<CardView>, n: int) -> Option<Seq<char>>
    decreases n,
{
    if n <= 0 {
        None
    } else {
        let best = leader(cards, n - 1);
        match (cards[n - 1].tree, best) {
            (None, _) => best,
            (Some(tree), None) => Some(tree),
            (Some(tree), Some(b)) => if votes(cards, tree) > votes(cards, b) {
                Some(tree)
            } else {
                best
            },
        }
    }
}

/// The tree most cards name.
pub open spec fn majority_tree(cards: Seq<CardView>) -> Option<Seq<char>> {
    leader(cards, cards.len() as int)
}

fn count_votes(cards: &[PeerCard], tree: &str) -> (n: usize)
    ensures
        n == votes(card_views(cards@), tree@),
{
    let ghost all = card_views(cards@);
    let mut n: usize = 0;
    let mut i: usize = 0;
    assert(all.take(0) =~= Seq::empty());
    while i < cards.len()
        invariant
            0 <= i <= cards@.len(),
            all == card_views(cards@),
            n <= i,
            n == votes(all.take(i as int), tree@),
        decreases cards@.len() - i,
    {
        assert(all.take(i as int + 1).drop_last() =~= all.take(i as int));
        assert(all[i as int] == cards@[i as int]@);
        match &cards[i].tree {
            None => {},
            Some(named) => {
                if text_eq(named.as_str(), tree) {
                    n += 1;
                }
            },
        }
        i += 1;
    }
    assert(all.take(i as int) =~= all);
    n
}

/// The tree most cards name. Cards of peers that left count too; one that made
/// a majority alone cannot answer a dial.
#[must_use]
pub fn majority(cards: &[PeerCard]) -> (tree: Option<String>)
    ensures
        match tree {
            Some(t) => majority_tree(card_views(cards@)) == Some(t@),
            None => majority_tree(card_views(cards@)) is None,
        },
{
    let ghost all = card_views(cards@);
    let mut best: Option<String> = None;
    let mut i: usize = 0;
    while i < cards.len()
        invariant
            0 <= i <= cards@.len(),
            all == card_views(cards@),
            match best {
                Some(t) => leader(all, i as int) == Some(t@),
                None => leader(all, i as int) is None,
            },
        decreases cards@.len() - i,
    {
        assert(all[i as int] == cards@[i as int]@);
        match &cards[i].tree {
            None => {},
            Some(tree) => {
                let better = match &best {
                    None => true,
                    Some(b) => count_votes(cards, tree.as_str()) > count_votes(cards, b.as_str()),
                };
                if better {
                    best = Some(tree.clone());
                }
            },
        }
        i += 1;
    }
    best
}

proof fn lemma_leader(cards: Seq<CardView>, n: int, i: int)
    requires
        0 <= i < n <= cards.len(),
        cards[i].tree is Some,
    ensures
        leader(cards, n) is Some,
        votes(cards, cards[i].tree->Some_0) <= votes(cards, leader(cards, n)->Some_0),
    decreases n,
{
    if i < n - 1 {
        lemma_leader(cards, n - 1, i);
    }
}

proof fn lemma_named(cards: Seq<CardView>, tree: Seq<char>)
    ensures
        votes(cards, tree) > 0 ==> exists|i: int|
            0 <= i < cards.len() && (#[trigger] cards[i]).tree == Some(tree),
    decreases cards.len(),
{
    if cards.len() > 0 {
        let short = cards.drop_last();
        lemma_named(short, tree);
        if cards.last().tree == Some(tree) {
            assert(cards[cards.len() - 1].tree == Some(tree));
        } else if votes(cards, tree) > 0 {
            let i = choose|i: int| 0 <= i < short.len() && (#[trigger] short[i]).tree == Some(tree);
            assert(cards[i].tree == Some(tree));
        }
    }
}

/// No tree has more votes than the one that is taken.
pub proof fn law_the_majority_rules(cards: Seq<CardView>, other: Seq<char>)
    requires
        majority_tree(cards) is Some,
    ensures
        votes(cards, other) <= votes(cards, majority_tree(cards)->Some_0),
{
    lemma_named(cards, other);
    if votes(cards, other) > 0 {
        let i = choose|i: int| 0 <= i < cards.len() && (#[trigger] cards[i]).tree == Some(other);
        lemma_leader(cards, cards.len() as int, i);
    }
}

/// Where anybody vouches there is a majority.
pub proof fn law_vouchers_agree_on_some_tree(cards: Seq<CardView>, own: Seq<char>)
    requires
        vouching(cards, own).len() > 0,
    ensures
        majority_tree(vouching(cards, own)) is Some,
{
    lemma_vouching(cards, own);
    let list = vouching(cards, own);
    assert(vouches(list[0], own));
    lemma_leader(list, list.len() as int, 0);
}

proof fn lemma_vouching(cards: Seq<CardView>, own: Seq<char>)
    ensures
        forall|i: int|
            0 <= i < vouching(cards, own).len() ==> vouches(
                #[trigger] vouching(cards, own)[i],
                own,
            ),
    decreases cards.len(),
{
    if cards.len() > 0 {
        let rest = vouching(cards.drop_last(), own);
        let list = vouching(cards, own);
        lemma_vouching(cards.drop_last(), own);
        assert forall|i: int| 0 <= i < list.len() implies vouches(#[trigger] list[i], own) by {
            if i < rest.len() {
                assert(list[i] == rest[i]);
            }
        }
    }
}

/// A candidate and the number that orders it among its like.
pub type Keyed = (CardView, u64);

/// Whether a peer runs outside a browser: it is reached directly.
pub open spec fn is_native(card: CardView) -> bool {
    card.transport == "unicast"@
}

/// Whether one candidate is tried before another: native peers first, and by
/// their numbers within a class.
pub open spec fn goes_before(a: Keyed, b: Keyed) -> bool {
    if is_native(a.0) == is_native(b.0) {
        a.1 < b.1
    } else {
        is_native(a.0)
    }
}

/// A list with one more put behind everything that it does not go before.
pub open spec fn placed(list: Seq<Keyed>, one: Keyed) -> Seq<Keyed>
    decreases list.len(),
{
    if list.len() > 0 && goes_before(one, list.last()) {
        placed(list.drop_last(), one).push(list.last())
    } else {
        list.push(one)
    }
}

/// A list in the order it is tried in.
pub open spec fn ranked(list: Seq<Keyed>) -> Seq<Keyed>
    decreases list.len(),
{
    if list.len() == 0 {
        Seq::empty()
    } else {
        placed(ranked(list.drop_last()), list.last())
    }
}

/// A number of a list that may be too short.
pub open spec fn key_at(keys: Seq<u64>, i: int) -> u64 {
    if i < keys.len() {
        keys[i]
    } else {
        0
    }
}

/// The cards of a tree, numbered.
pub open spec fn backers(cards: Seq<CardView>, tree: Seq<char>, keys: Seq<u64>) -> Seq<Keyed>
    decreases cards.len(),
{
    if cards.len() == 0 {
        Seq::empty()
    } else {
        let rest = backers(cards.drop_last(), tree, keys);
        if cards.last().tree == Some(tree) {
            rest.push((cards.last(), key_at(keys, rest.len() as int)))
        } else {
            rest
        }
    }
}

spec fn keyed(list: Seq<(PeerCard, u64)>) -> Seq<Keyed> {
    Seq::new(list.len(), |i: int| (list[i].0@, list[i].1))
}

fn earlier(a: &(PeerCard, u64), b: &(PeerCard, u64)) -> (before: bool)
    ensures
        before == goes_before((a.0@, a.1), (b.0@, b.1)),
{
    let native_a = text_eq(a.0.transport.as_str(), "unicast");
    let native_b = text_eq(b.0.transport.as_str(), "unicast");
    if native_a == native_b {
        a.1 < b.1
    } else {
        native_a
    }
}

fn place(list: &mut Vec<(PeerCard, u64)>, one: (PeerCard, u64))
    ensures
        keyed(final(list)@) == placed(keyed(old(list)@), (one.0@, one.1)),
{
    let ghost was = keyed(list@);
    let ghost v = (one.0@, one.1);
    let mut i: usize = list.len();
    assert(was.take(i as int) =~= was);
    assert(placed(was, v) =~= placed(was.take(i as int), v) + was.skip(i as int));
    while i > 0 && earlier(&one, &list[i - 1])
        invariant
            0 <= i <= list@.len(),
            was == keyed(list@),
            v == (one.0@, one.1),
            placed(was, v) == placed(was.take(i as int), v) + was.skip(i as int),
        ensures
            0 <= i <= list@.len(),
            placed(was, v) == placed(was.take(i as int), v) + was.skip(i as int),
            i > 0 ==> !goes_before(v, was[i - 1]),
        decreases i,
    {
        let ghost upto = was.take(i as int);
        assert(upto.last() == was[i - 1]);
        assert(upto.drop_last() =~= was.take(i - 1));
        assert(placed(upto, v) + was.skip(i as int) =~= placed(was.take(i - 1), v) + was.skip(
            i - 1,
        ));
        i -= 1;
    }
    proof {
        let upto = was.take(i as int);
        if i > 0 {
            assert(upto.last() == was[i - 1]);
        }
        assert(placed(upto, v) == upto.push(v));
    }
    list.insert(i, one);
    assert(keyed(list@) =~= was.take(i as int).push(v) + was.skip(i as int));
}

/// The candidates that back a tree, in the order they are tried in. The numbers
/// order candidates of one class, so that fresh random ones let a retry land on
/// other peers than the last.
#[must_use]
pub fn candidates(cards: &[PeerCard], tree: &str, keys: &[u64]) -> (out: Vec<PeerCard>)
    ensures
        card_views(out@) == ranked(backers(card_views(cards@), tree@, keys@)).map_values(
            |k: Keyed| k.0,
        ),
{
    let ghost all = card_views(cards@);
    let mut list: Vec<(PeerCard, u64)> = Vec::new();
    let mut taken: usize = 0;
    let mut i: usize = 0;
    assert(keyed(list@) =~= ranked(backers(all.take(0), tree@, keys@)));
    while i < cards.len()
        invariant
            0 <= i <= cards@.len(),
            all == card_views(cards@),
            taken <= i,
            taken == backers(all.take(i as int), tree@, keys@).len(),
            keyed(list@) == ranked(backers(all.take(i as int), tree@, keys@)),
        decreases cards@.len() - i,
    {
        let ghost before = backers(all.take(i as int), tree@, keys@);
        assert(all.take(i as int + 1).drop_last() =~= all.take(i as int));
        assert(all[i as int] == cards@[i as int]@);
        let backs = match &cards[i].tree {
            None => false,
            Some(named) => text_eq(named.as_str(), tree),
        };
        if backs {
            let key: u64 = if taken < keys.len() {
                keys[taken]
            } else {
                0
            };
            let ghost after = before.push((all[i as int], key));
            assert(after.drop_last() =~= before);
            place(&mut list, (cards[i].copy(), key));
            taken += 1;
        }
        i += 1;
    }
    assert(all.take(i as int) =~= all);
    let ghost order = ranked(backers(all, tree@, keys@));
    let mut out: Vec<PeerCard> = Vec::new();
    let mut k: usize = 0;
    while k < list.len()
        invariant
            0 <= k <= list@.len(),
            keyed(list@) == order,
            out@.len() == k,
            forall|j: int| 0 <= j < k ==> (#[trigger] out@[j])@ == order[j].0,
        decreases list@.len() - k,
    {
        assert(keyed(list@)[k as int].0 == list@[k as int].0@);
        out.push(list[k].0.copy());
        k += 1;
    }
    assert(card_views(out@) =~= order.map_values(|k: Keyed| k.0));
    out
}

/// Whether nobody goes before somebody listed earlier.
pub open spec fn in_order(list: Seq<Keyed>) -> bool {
    forall|i: int, j: int|
        0 <= i < j < list.len() ==> !goes_before(#[trigger] list[j], #[trigger] list[i])
}

proof fn lemma_placed(list: Seq<Keyed>, one: Keyed)
    requires
        in_order(list),
    ensures
        in_order(placed(list, one)),
        placed(list, one).to_multiset() == list.to_multiset().insert(one),
        placed(list, one).len() == list.len() + 1,
        forall|x: Keyed| #[trigger]
            placed(list, one).contains(x) <==> list.contains(x) || x == one,
    decreases list.len(),
{
    broadcast use vstd::seq_lib::group_to_multiset_ensures;

    let out = placed(list, one);
    if list.len() > 0 && goes_before(one, list.last()) {
        let short = list.drop_last();
        let last = list.last();
        assert forall|i: int, j: int| 0 <= i < j < short.len() implies !goes_before(
            #[trigger] short[j],
            #[trigger] short[i],
        ) by {
            assert(!goes_before(list[j], list[i]));
        }
        lemma_placed(short, one);
        let inner = placed(short, one);
        assert(list =~= short.push(last));
        assert(out =~= inner.push(last));
        assert(out.to_multiset() =~= list.to_multiset().insert(one));
        assert forall|x: Keyed| #[trigger] out.contains(x) <==> list.contains(x) || x == one by {
            lemma_pushed(inner, last, x);
            lemma_pushed(short, last, x);
        }
        assert forall|i: int, j: int| 0 <= i < j < out.len() implies !goes_before(
            #[trigger] out[j],
            #[trigger] out[i],
        ) by {
            if j < inner.len() {
                assert(!goes_before(inner[j], inner[i]));
            } else {
                let x = inner[i];
                assert(inner.contains(x));
                if short.contains(x) {
                    let k = choose|k: int| 0 <= k < short.len() && short[k] == x;
                    assert(!goes_before(list[list.len() - 1], list[k]));
                }
            }
        }
    } else {
        assert(out =~= list.push(one));
        assert forall|x: Keyed| #[trigger] out.contains(x) <==> list.contains(x) || x == one by {
            lemma_pushed(list, one, x);
        }
        assert forall|i: int, j: int| 0 <= i < j < out.len() implies !goes_before(
            #[trigger] out[j],
            #[trigger] out[i],
        ) by {
            if j < list.len() {
                assert(!goes_before(list[j], list[i]));
            } else if i < list.len() - 1 {
                assert(!goes_before(list[list.len() - 1], list[i]));
            }
        }
    }
}

proof fn lemma_pushed(list: Seq<Keyed>, one: Keyed, x: Keyed)
    ensures
        list.push(one).contains(x) <==> list.contains(x) || x == one,
{
    let out = list.push(one);
    if list.contains(x) {
        let k = choose|k: int| 0 <= k < list.len() && list[k] == x;
        assert(out[k] == x);
    }
    assert(out[list.len() as int] == one);
    if out.contains(x) {
        let k = choose|k: int| 0 <= k < out.len() && out[k] == x;
        if k < list.len() {
            assert(list[k] == x);
        }
    }
}

/// The order of candidates drops nobody and adds nobody; native peers come
/// first, and within a class the numbers decide.
pub proof fn law_native_peers_are_tried_first(list: Seq<Keyed>)
    ensures
        in_order(ranked(list)),
        ranked(list).to_multiset() == list.to_multiset(),
    decreases list.len(),
{
    broadcast use vstd::seq_lib::group_to_multiset_ensures;

    if list.len() > 0 {
        let short = list.drop_last();
        law_native_peers_are_tried_first(short);
        lemma_placed(ranked(short), list.last());
        assert(list =~= short.push(list.last()));
        assert(ranked(list).to_multiset() =~= list.to_multiset());
    } else {
        assert(ranked(list) =~= list);
    }
}

/// The endpoint id that a text spells, if it spells one.
pub uninterp spec fn endpoint_key(text: Seq<char>) -> Option<Seq<u8>>;

pub open spec fn id_view(id: Option<[u8; 32]>) -> Option<Seq<u8>> {
    match id {
        Some(bytes) => Some(bytes@),
        None => None,
    }
}

pub open spec fn id_views(ids: Seq<Option<[u8; 32]>>) -> Seq<Option<Seq<u8>>> {
    Seq::new(ids.len(), |i: int| id_view(ids[i]))
}

/// `iroh_base::EndpointId::from_str`: whether a text is an endpoint id, and
/// which one, is a function of the text. Which texts those are is left to the
/// crate.
#[verifier::external_body]
fn parse_endpoint(text: &str) -> (id: Option<[u8; 32]>)
    ensures
        id_view(id) == endpoint_key(text@),
{
    text.parse::<iroh_base::EndpointId>().ok().map(|id| *id.as_bytes())
}

/// A dial that starts after a delay, and the tree its peer has to serve.
#[derive(Debug, Clone, PartialEq, Eq)]
pub struct Launch {
    pub endpoint: String,
    pub id: [u8; 32],
    pub tree: String,
    pub delay_ms: u64,
}

pub struct LaunchView {
    pub endpoint: Seq<char>,
    pub id: Seq<u8>,
    pub tree: Seq<char>,
    pub delay_ms: int,
}

impl View for Launch {
    type V = LaunchView;

    open spec fn view(&self) -> LaunchView {
        LaunchView {
            endpoint: self.endpoint@,
            id: self.id@,
            tree: self.tree@,
            delay_ms: self.delay_ms as int,
        }
    }
}

pub open spec fn launch_views(s: Seq<Launch>) -> Seq<LaunchView> {
    Seq::new(s.len(), |i: int| s[i]@)
}

/// The dials of a race: one for each candidate whose endpoint is an id, each a
/// step behind the one before it in the list.
pub open spec fn race_launches(
    endpoints: Seq<Seq<char>>,
    ids: Seq<Option<Seq<u8>>>,
    tree: Seq<char>,
) -> Seq<LaunchView>
    decreases endpoints.len(),
{
    if endpoints.len() == 0 {
        Seq::empty()
    } else {
        let rest = race_launches(endpoints.drop_last(), ids, tree);
        let slot = endpoints.len() - 1;
        match ids[slot] {
            None => rest,
            Some(id) => rest.push(
                LaunchView { endpoint: endpoints.last(), id, tree, delay_ms: slot * 2_000 },
            ),
        }
    }
}

/// The ids of texts.
pub open spec fn keys_of(endpoints: Seq<Seq<char>>) -> Seq<Option<Seq<u8>>> {
    Seq::new(endpoints.len(), |i: int| endpoint_key(endpoints[i]))
}

/// At most the first candidates, as many as one attempt dials.
pub open spec fn width(endpoints: Seq<Seq<char>>) -> Seq<Seq<char>> {
    if endpoints.len() <= SEEDER_RACE_WIDTH {
        endpoints
    } else {
        endpoints.take(SEEDER_RACE_WIDTH as int)
    }
}

/// The dials of a race whose endpoints have these ids.
#[must_use]
pub fn launch_race(endpoints: &[String], ids: &[Option<[u8; 32]>], tree: &str) -> (out: Vec<Launch>)
    requires
        endpoints@.len() == ids@.len() <= SEEDER_RACE_WIDTH,
    ensures
        launch_views(out@) == race_launches(texts(endpoints@), id_views(ids@), tree@),
{
    let ghost all = texts(endpoints@);
    let ghost keys = id_views(ids@);
    let mut out: Vec<Launch> = Vec::new();
    let mut i: usize = 0;
    assert(launch_views(out@) =~= race_launches(all.take(0), keys, tree@));
    while i < endpoints.len()
        invariant
            0 <= i <= endpoints@.len(),
            endpoints@.len() == ids@.len() <= 6,
            all == texts(endpoints@),
            keys == id_views(ids@),
            launch_views(out@) == race_launches(all.take(i as int), keys, tree@),
        decreases endpoints@.len() - i,
    {
        let ghost was = launch_views(out@);
        assert(all.take(i as int + 1).drop_last() =~= all.take(i as int));
        assert(all.take(i as int + 1).last() == endpoints@[i as int]@);
        assert(keys[i as int] == id_view(ids@[i as int]));
        match &ids[i] {
            None => {},
            Some(id) => {
                let delay_ms: u64 = i as u64 * 2_000;
                out.push(
                    Launch {
                        endpoint: endpoints[i].clone(),
                        id: *id,
                        tree: tree.to_owned(),
                        delay_ms,
                    },
                );
                assert(launch_views(out@) =~= was.push(out@.last()@));
            },
        }
        i += 1;
    }
    assert(all.take(i as int) =~= all);
    out
}

/// The dials of a race over candidates. One whose endpoint is no id is passed
/// over; those beyond the width wait for the next attempt.
#[must_use]
pub fn plan_race(candidates: &[PeerCard], tree: &str) -> (out: Vec<Launch>)
    ensures
        launch_views(out@) == race_launches(
            width(crate::peers::endpoints(card_views(candidates@))),
            keys_of(width(crate::peers::endpoints(card_views(candidates@)))),
            tree@,
        ),
{
    let ghost all = crate::peers::endpoints(card_views(candidates@));
    let mut endpoints: Vec<String> = Vec::new();
    let mut ids: Vec<Option<[u8; 32]>> = Vec::new();
    let mut i: usize = 0;
    while i < candidates.len() && i < SEEDER_RACE_WIDTH
        invariant
            0 <= i <= candidates@.len(),
            i <= SEEDER_RACE_WIDTH,
            all == crate::peers::endpoints(card_views(candidates@)),
            endpoints@.len() == i,
            ids@.len() == i,
            forall|k: int| 0 <= k < i ==> (#[trigger] endpoints@[k])@ == all[k],
            forall|k: int| 0 <= k < i ==> id_view(#[trigger] ids@[k]) == endpoint_key(all[k]),
        decreases candidates@.len() - i,
    {
        let endpoint = candidates[i].endpoint.clone();
        assert(all[i as int] == endpoint@);
        ids.push(parse_endpoint(endpoint.as_str()));
        endpoints.push(endpoint);
        i += 1;
    }
    assert(texts(endpoints@) =~= width(all));
    assert(id_views(ids@) =~= keys_of(width(all)));
    launch_race(endpoints.as_slice(), ids.as_slice(), tree)
}

/// The dials of seeders known from an earlier connect: all but this peer's own
/// record, each a step behind the dial before it.
pub open spec fn redial_launches(
    entries: Seq<KnownView>,
    ids: Seq<Option<Seq<u8>>>,
    own: Seq<char>,
) -> Seq<LaunchView>
    decreases entries.len(),
{
    if entries.len() == 0 {
        Seq::empty()
    } else {
        let rest = redial_launches(entries.drop_last(), ids, own);
        let entry = entries.last();
        match ids[entries.len() - 1] {
            Some(id) if entry.endpoint != own => rest.push(
                LaunchView {
                    endpoint: entry.endpoint,
                    id,
                    tree: entry.tree,
                    delay_ms: rest.len() as int * 500,
                },
            ),
            _ => rest,
        }
    }
}

pub open spec fn known_keys(entries: Seq<KnownView>) -> Seq<Option<Seq<u8>>> {
    Seq::new(entries.len(), |i: int| endpoint_key(entries[i].endpoint))
}

/// The dials of known seeders whose endpoints have these ids.
#[must_use]
pub fn launch_redial(entries: &[KnownSeeder], ids: &[Option<[u8; 32]>], own: &str) -> (out: Vec<
    Launch,
>)
    requires
        entries@.len() == ids@.len(),
        entries@.len() * 500 <= u64::MAX,
    ensures
        launch_views(out@) == redial_launches(known_views(entries@), id_views(ids@), own@),
{
    let ghost all = known_views(entries@);
    let ghost keys = id_views(ids@);
    let mut out: Vec<Launch> = Vec::new();
    let mut i: usize = 0;
    assert(launch_views(out@) =~= redial_launches(all.take(0), keys, own@));
    while i < entries.len()
        invariant
            0 <= i <= entries@.len(),
            entries@.len() == ids@.len(),
            entries@.len() * 500 <= u64::MAX,
            all == known_views(entries@),
            keys == id_views(ids@),
            out@.len() <= i,
            launch_views(out@) == redial_launches(all.take(i as int), keys, own@),
        decreases entries@.len() - i,
    {
        let ghost was = launch_views(out@);
        let entry = &entries[i];
        assert(all.take(i as int + 1).drop_last() =~= all.take(i as int));
        assert(all.take(i as int + 1).last() == entry@);
        assert(keys[i as int] == id_view(ids@[i as int]));
        match &ids[i] {
            None => {},
            Some(id) => {
                if !text_eq(entry.endpoint.as_str(), own) {
                    let delay_ms: u64 = out.len() as u64 * 500;
                    out.push(
                        Launch {
                            endpoint: entry.endpoint.clone(),
                            id: *id,
                            tree: entry.tree.clone(),
                            delay_ms,
                        },
                    );
                    assert(launch_views(out@) =~= was.push(out@.last()@));
                }
            },
        }
        i += 1;
    }
    assert(all.take(i as int) =~= all);
    out
}

/// The dials of the seeders known from an earlier connect. None where there is
/// no relay to dial them over.
#[must_use]
pub fn plan_redial(entries: &[KnownSeeder], own: &str, has_relay: bool) -> (out: Vec<Launch>)
    requires
        entries@.len() * 500 <= u64::MAX,
    ensures
        launch_views(out@) == (if has_relay {
            redial_launches(known_views(entries@), known_keys(known_views(entries@)), own@)
        } else {
            Seq::empty()
        }),
{
    if !has_relay {
        let none: Vec<Launch> = Vec::new();
        assert(launch_views(none@) =~= Seq::empty());
        return none;
    }
    let ghost all = known_views(entries@);
    let mut ids: Vec<Option<[u8; 32]>> = Vec::new();
    let mut i: usize = 0;
    while i < entries.len()
        invariant
            0 <= i <= entries@.len(),
            all == known_views(entries@),
            ids@.len() == i,
            forall|k: int|
                0 <= k < i ==> id_view(#[trigger] ids@[k]) == endpoint_key(all[k].endpoint),
        decreases entries@.len() - i,
    {
        assert(all[i as int] == entries@[i as int]@);
        ids.push(parse_endpoint(entries[i].endpoint.as_str()));
        i += 1;
    }
    assert(id_views(ids@) =~= known_keys(all));
    launch_redial(entries, ids.as_slice(), own)
}

proof fn lemma_redial(entries: Seq<KnownView>, ids: Seq<Option<Seq<u8>>>, own: Seq<char>)
    ensures
        forall|i: int|
            0 <= i < redial_launches(entries, ids, own).len() ==> (#[trigger] redial_launches(
                entries,
                ids,
                own,
            )[i]).endpoint != own,
    decreases entries.len(),
{
    if entries.len() > 0 {
        let rest = redial_launches(entries.drop_last(), ids, own);
        let list = redial_launches(entries, ids, own);
        lemma_redial(entries.drop_last(), ids, own);
        assert forall|i: int| 0 <= i < list.len() implies (#[trigger] list[i]).endpoint != own by {
            if i < rest.len() {
                assert(list[i] == rest[i]);
            }
        }
    }
}

/// A peer never dials itself from its own records.
pub proof fn law_a_peer_does_not_redial_itself(
    entries: Seq<KnownView>,
    ids: Seq<Option<Seq<u8>>>,
    own: Seq<char>,
    i: int,
)
    requires
        0 <= i < redial_launches(entries, ids, own).len(),
    ensures
        redial_launches(entries, ids, own)[i].endpoint != own,
{
    lemma_redial(entries, ids, own);
}

/// Those who vouch are the peers that name a tree and serve some of it, oneself
/// left out, in the order they were listed.
pub proof fn law_vouchers_name_a_tree_and_serve_it(cards: Seq<CardView>, own: Seq<char>)
    ensures
        vouching(cards, own) == cards.filter(
            |card: CardView| card.tree is Some && card.serving is Some && card.endpoint != own,
        ),
    decreases cards.len(),
{
    reveal(Seq::filter);
    if cards.len() > 0 {
        law_vouchers_name_a_tree_and_serve_it(cards.drop_last(), own);
    } else {
        assert(cards =~= Seq::empty());
    }
}

/// A tree has a vote for every card that names it.
pub proof fn law_every_card_has_a_vote(cards: Seq<CardView>, tree: Seq<char>)
    ensures
        votes(cards, tree) == cards.filter(|card: CardView| card.tree == Some(tree)).len(),
    decreases cards.len(),
{
    reveal(Seq::filter);
    if cards.len() > 0 {
        law_every_card_has_a_vote(cards.drop_last(), tree);
    }
}

proof fn lemma_leader_first(cards: Seq<CardView>, n: int)
    requires
        0 <= n <= cards.len(),
    ensures
        match leader(cards, n) {
            None => forall|j: int| 0 <= j < n ==> (#[trigger] cards[j]).tree is None,
            Some(best) => exists|i: int|
                0 <= i < n && (#[trigger] cards[i]).tree == Some(best) && (forall|j: int|
                    0 <= j < i && (#[trigger] cards[j]).tree is Some ==> votes(
                        cards,
                        cards[j].tree->Some_0,
                    ) < votes(cards, best)) && (forall|j: int|
                    0 <= j < n && (#[trigger] cards[j]).tree is Some ==> votes(
                        cards,
                        cards[j].tree->Some_0,
                    ) <= votes(cards, best)),
        },
    decreases n,
{
    if n > 0 {
        lemma_leader_first(cards, n - 1);
        let before = leader(cards, n - 1);
        if let Some(best) = leader(cards, n) {
            if before == Some(best) {
                let i = choose|i: int|
                    0 <= i < n - 1 && (#[trigger] cards[i]).tree == Some(best) && (forall|j: int|
                        0 <= j < i && (#[trigger] cards[j]).tree is Some ==> votes(
                            cards,
                            cards[j].tree->Some_0,
                        ) < votes(cards, best)) && (forall|j: int|
                        0 <= j < n - 1 && (#[trigger] cards[j]).tree is Some ==> votes(
                            cards,
                            cards[j].tree->Some_0,
                        ) <= votes(cards, best));
                assert(cards[i].tree == Some(best));
            } else {
                assert(cards[n - 1].tree == Some(best));
            }
        }
    }
}

/// The majority is a tree that some card names, with as many votes as any; of
/// several with the same, the one named first. There is none only where no card
/// names a tree.
pub proof fn law_the_majority_is_the_first_of_the_most_named(cards: Seq<CardView>)
    ensures
        match majority_tree(cards) {
            None => forall|j: int| 0 <= j < cards.len() ==> (#[trigger] cards[j]).tree is None,
            Some(best) => exists|i: int|
                0 <= i < cards.len() && (#[trigger] cards[i]).tree == Some(best) && (forall|j: int|
                    0 <= j < i && (#[trigger] cards[j]).tree is Some ==> votes(
                        cards,
                        cards[j].tree->Some_0,
                    ) < votes(cards, best)) && (forall|j: int|
                    0 <= j < cards.len() && (#[trigger] cards[j]).tree is Some ==> votes(
                        cards,
                        cards[j].tree->Some_0,
                    ) <= votes(cards, best)),
        },
{
    lemma_leader_first(cards, cards.len() as int);
}

/// The candidates for a tree are the cards that name it, each once. Those of
/// native peers come first, and within the two groups the keys decide.
pub proof fn law_candidates_name_the_tree_natives_first(
    cards: Seq<CardView>,
    tree: Seq<char>,
    keys: Seq<u64>,
    i: int,
    j: int,
)
    ensures
        ({
            let list = ranked(backers(cards, tree, keys));
            &&& list.map_values(|k: Keyed| k.0).to_multiset() == cards.filter(
                |card: CardView| card.tree == Some(tree),
            ).to_multiset()
            &&& 0 <= i < j < list.len() ==> {
                let a = list[i];
                let b = list[j];
                &&& b.0.transport == "unicast"@ ==> a.0.transport == "unicast"@
                &&& (a.0.transport == "unicast"@) == (b.0.transport == "unicast"@) ==> a.1 <= b.1
            }
        }),
        ({
            let given = backers(cards, tree, keys);
            0 <= i < given.len() ==> given[i].1 == (if i < keys.len() {
                keys[i]
            } else {
                0
            })
        }),
{
    let given = backers(cards, tree, keys);
    let list = ranked(given);
    law_native_peers_are_tried_first(given);
    lemma_backers(cards, tree, keys);
    lemma_same_cards(list, given);
    if 0 <= i < j < list.len() {
        assert(!goes_before(list[j], list[i]));
    }
}

proof fn lemma_backers(cards: Seq<CardView>, tree: Seq<char>, keys: Seq<u64>)
    ensures
        backers(cards, tree, keys).map_values(|k: Keyed| k.0) == cards.filter(
            |card: CardView| card.tree == Some(tree),
        ),
        forall|i: int|
            0 <= i < backers(cards, tree, keys).len() ==> (#[trigger] backers(
                cards,
                tree,
                keys,
            )[i]).1 == (if i < keys.len() {
                keys[i]
            } else {
                0
            }),
    decreases cards.len(),
{
    reveal(Seq::filter);
    let first = |k: Keyed| k.0;
    if cards.len() > 0 {
        lemma_backers(cards.drop_last(), tree, keys);
        let rest = backers(cards.drop_last(), tree, keys);
        if cards.last().tree == Some(tree) {
            assert(backers(cards, tree, keys).map_values(first) =~= rest.map_values(first).push(
                cards.last(),
            ));
        }
    } else {
        assert(backers(cards, tree, keys).map_values(first) =~= Seq::empty());
        assert(cards =~= Seq::empty());
    }
}

proof fn lemma_same_cards(a: Seq<Keyed>, b: Seq<Keyed>)
    requires
        a.to_multiset() == b.to_multiset(),
    ensures
        a.map_values(|k: Keyed| k.0).to_multiset() == b.map_values(|k: Keyed| k.0).to_multiset(),
    decreases a.len(),
{
    broadcast use vstd::seq_lib::group_to_multiset_ensures;

    let first = |k: Keyed| k.0;
    a.to_multiset_ensures();
    b.to_multiset_ensures();
    assert(a.len() == b.len());
    if a.len() == 0 {
        assert(a.map_values(first) =~= b.map_values(first));
    } else {
        let x = a.last();
        let short = a.drop_last();
        assert(a =~= short.push(x));
        assert(a.to_multiset().count(x) > 0);
        assert(b.contains(x));
        let n = choose|n: int| 0 <= n < b.len() && b[n] == x;
        let rest = b.remove(n);
        assert(b =~= rest.insert(n, x));
        assert(short.to_multiset() =~= rest.to_multiset());
        lemma_same_cards(short, rest);
        assert(a.map_values(first) =~= short.map_values(first).push(first(x)));
        assert(b.map_values(first) =~= rest.map_values(first).insert(n, first(x)));
        assert(a.map_values(first).to_multiset() =~= b.map_values(first).to_multiset());
    }
}

/// A race launches every endpoint that is one, at its own time: two seconds behind
/// the one before it in the list, whether or not that one could be dialled.
pub proof fn law_a_race_launches_every_endpoint(
    endpoints: Seq<Seq<char>>,
    ids: Seq<Option<Seq<u8>>>,
    tree: Seq<char>,
)
    requires
        endpoints.len() == ids.len(),
    ensures
        race_launches(endpoints, ids, tree) == Seq::new(endpoints.len(), |i: int| i).filter(
            |i: int| ids[i] is Some,
        ).map_values(
            |i: int|
                LaunchView {
                    endpoint: endpoints[i],
                    id: ids[i]->Some_0,
                    tree,
                    delay_ms: 2_000 * i,
                },
        ),
{
    lemma_race_launches(endpoints, ids, tree, endpoints.len());
    assert(endpoints.take(endpoints.len() as int) =~= endpoints);
}

proof fn lemma_race_launches(
    endpoints: Seq<Seq<char>>,
    ids: Seq<Option<Seq<u8>>>,
    tree: Seq<char>,
    n: nat,
)
    requires
        endpoints.len() == ids.len(),
        n <= endpoints.len(),
    ensures
        race_launches(endpoints.take(n as int), ids, tree) == Seq::new(n, |i: int| i).filter(
            |i: int| ids[i] is Some,
        ).map_values(
            |i: int|
                LaunchView {
                    endpoint: endpoints[i],
                    id: ids[i]->Some_0,
                    tree,
                    delay_ms: 2_000 * i,
                },
        ),
    decreases n,
{
    reveal(Seq::filter);
    let keep = |i: int| ids[i] is Some;
    let launch = |i: int|
        LaunchView { endpoint: endpoints[i], id: ids[i]->Some_0, tree, delay_ms: 2_000 * i };
    let all = Seq::new(n, |i: int| i);
    if n > 0 {
        let fewer = Seq::new((n - 1) as nat, |i: int| i);
        lemma_race_launches(endpoints, ids, tree, (n - 1) as nat);
        assert(all.drop_last() =~= fewer);
        assert(endpoints.take(n as int).drop_last() =~= endpoints.take(n - 1));
        assert(endpoints.take(n as int).last() == endpoints[n - 1]);
        let before = fewer.filter(keep);
        if keep(n - 1) {
            assert(all.filter(keep) =~= before.push(n - 1));
            assert(before.push(n - 1).map_values(launch) =~= before.map_values(launch).push(
                launch(n - 1),
            ));
        }
    } else {
        assert(endpoints.take(0) =~= Seq::empty());
        assert(all.filter(keep).map_values(launch) =~= Seq::empty());
    }
}

/// A redial launches every known seeder that can be dialled, oneself left out, half
/// a second behind the one launched before it, and for the tree it was known for.
pub proof fn law_a_redial_launches_every_known_seeder(
    entries: Seq<KnownView>,
    ids: Seq<Option<Seq<u8>>>,
    own: Seq<char>,
    i: int,
)
    requires
        entries.len() == ids.len(),
    ensures
        ({
            let picked = Seq::new(entries.len(), |k: int| k).filter(
                |k: int| ids[k] is Some && entries[k].endpoint != own,
            );
            let launches = redial_launches(entries, ids, own);
            &&& launches.len() == picked.len()
            &&& 0 <= i < picked.len() ==> launches[i] == (LaunchView {
                endpoint: entries[picked[i]].endpoint,
                id: ids[picked[i]]->Some_0,
                tree: entries[picked[i]].tree,
                delay_ms: 500 * i,
            })
        }),
{
    lemma_redial_launches(entries, ids, own, entries.len());
    assert(entries.take(entries.len() as int) =~= entries);
}

proof fn lemma_redial_launches(
    entries: Seq<KnownView>,
    ids: Seq<Option<Seq<u8>>>,
    own: Seq<char>,
    n: nat,
)
    requires
        entries.len() == ids.len(),
        n <= entries.len(),
    ensures
        ({
            let picked = Seq::new(n, |k: int| k).filter(
                |k: int| ids[k] is Some && entries[k].endpoint != own,
            );
            let launches = redial_launches(entries.take(n as int), ids, own);
            &&& launches.len() == picked.len()
            &&& forall|i: int|
                0 <= i < picked.len() ==> #[trigger] launches[i] == (LaunchView {
                    endpoint: entries[picked[i]].endpoint,
                    id: ids[picked[i]]->Some_0,
                    tree: entries[picked[i]].tree,
                    delay_ms: 500 * i,
                })
        }),
    decreases n,
{
    reveal(Seq::filter);
    let keep = |k: int| ids[k] is Some && entries[k].endpoint != own;
    let all = Seq::new(n, |k: int| k);
    if n > 0 {
        let fewer = Seq::new((n - 1) as nat, |k: int| k);
        lemma_redial_launches(entries, ids, own, (n - 1) as nat);
        assert(all.drop_last() =~= fewer);
        assert(entries.take(n as int).drop_last() =~= entries.take(n - 1));
        assert(entries.take(n as int).last() == entries[n - 1]);
        let before = fewer.filter(keep);
        let launches = redial_launches(entries.take(n as int), ids, own);
        if keep(n - 1) {
            assert(all.filter(keep) =~= before.push(n - 1));
        }
    } else {
        assert(entries.take(0) =~= Seq::empty());
    }
}

/// A race is as wide as six, and takes the first of the list.
pub proof fn law_a_race_takes_the_first_six(endpoints: Seq<Seq<char>>)
    ensures
        endpoints.len() <= 6 ==> width(endpoints) == endpoints,
        endpoints.len() > 6 ==> width(endpoints) == endpoints.subrange(0, 6),
{
    if endpoints.len() > 6 {
        assert(endpoints.take(6) =~= endpoints.subrange(0, 6));
    }
}

} // verus!
