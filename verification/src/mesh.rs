//! What a peer says of itself on a share's mesh, and what it has read of the
//! others.
use crate::client::{card_of_texts, label, texts_of_card, CardView, PeerCard, PRODUCT};
use crate::json::{insert, new_map, object};
use crate::roster::{card_views, entries_from_meta, entry_views, published_card, EntryView};
use crate::text::{
    chars_of, copy_opt, is_blank, opt_text, quoted, quoted_text, text_eq, text_lt, text_of, trim_chars,
    trimmed,
};
use crate::transport_mode::opt_str;
use vstd::prelude::*;

verus! {

/// The parts of a peer card that are known before the endpoint is.
#[derive(Debug, Clone, PartialEq, Eq)]
pub struct CardParts {
    pub version: String,
    pub runtime: String,
    pub transport: String,
    pub role: Option<String>,
}

pub struct PartsView {
    pub version: Seq<char>,
    pub runtime: Seq<char>,
    pub transport: Seq<char>,
    pub role: Option<Seq<char>>,
}

impl View for CardParts {
    type V = PartsView;

    open spec fn view(&self) -> PartsView {
        PartsView {
            version: self.version@,
            runtime: self.runtime@,
            transport: self.transport@,
            role: opt_text(self.role),
        }
    }
}

/// The card that parts and an endpoint make.
pub open spec fn card_from(parts: PartsView, endpoint: Seq<char>) -> CardView {
    CardView {
        endpoint,
        app: PRODUCT@,
        version: parts.version,
        runtime: parts.runtime,
        transport: parts.transport,
        client: label(parts.version, parts.runtime, parts.transport),
        role: parts.role,
        tree: None,
        serving: None,
    }
}

/// The parts a caller may hand over; each may be missing.
#[derive(Debug, Clone, PartialEq, Eq)]
pub struct CardFields {
    pub version: Option<String>,
    pub runtime: Option<String>,
    pub transport: Option<String>,
    pub role: Option<String>,
}

/// Why a caller's card is refused.
#[derive(Debug, Clone, Copy, PartialEq, Eq, Structural)]
pub enum CardError {
    Version,
    Runtime,
}

impl CardError {
    pub open spec fn text(self) -> Seq<char> {
        match self {
            CardError::Version => "peer card.version must be a non-empty string"@,
            CardError::Runtime => "peer card.runtime must be a non-empty string"@,
        }
    }

    /// What went wrong, in words.
    pub fn message(self) -> (text: &'static str)
        ensures
            text@ == self.text(),
    {
        match self {
            CardError::Version => "peer card.version must be a non-empty string",
            CardError::Runtime => "peer card.runtime must be a non-empty string",
        }
    }
}

/// A text that says something; an empty one counts as none.
pub open spec fn said(text: Option<Seq<char>>) -> Option<Seq<char>> {
    if text matches Some(t) && t.len() > 0 {
        text
    } else {
        None
    }
}

fn filled(text: Option<String>) -> (out: Option<String>)
    ensures
        opt_text(out) == said(opt_text(text)),
{
    match text {
        None => None,
        Some(text) => {
            if is_blank(text.as_str()) {
                None
            } else {
                Some(text)
            }
        },
    }
}

/// The parts used where a caller hands none over.
#[must_use]
pub fn default_card_parts(version: &str, transport: &str, role: Option<String>) -> (parts:
    CardParts)
    ensures
        parts@ == (PartsView {
            version: version@,
            runtime: "browser"@,
            transport: transport@,
            role: opt_text(role),
        }),
{
    CardParts {
        version: version.to_owned(),
        runtime: "browser".to_owned(),
        transport: transport.to_owned(),
        role,
    }
}

/// The parts a caller's fields make. A version and a runtime have to be there;
/// the transport and the role have defaults.
///
/// # Errors
/// No version, or no runtime.
pub fn parse_card_parts(fields: CardFields, transport: &str, role: Option<String>) -> (out: Result<
    CardParts,
    CardError,
>)
    ensures
        match (said(opt_text(fields.version)), said(opt_text(fields.runtime))) {
            (None, _) => out == Err::<CardParts, CardError>(CardError::Version),
            (Some(_), None) => out == Err::<CardParts, CardError>(CardError::Runtime),
            (Some(version), Some(runtime)) => out is Ok && out->Ok_0@ == (PartsView {
                version,
                runtime,
                transport: match said(opt_text(fields.transport)) {
                    Some(t) => t,
                    None => transport@,
                },
                role: match said(opt_text(fields.role)) {
                    Some(r) => Some(r),
                    None => opt_text(role),
                },
            }),
        },
{
    let version = match filled(fields.version) {
        None => return Err(CardError::Version),
        Some(version) => version,
    };
    let runtime = match filled(fields.runtime) {
        None => return Err(CardError::Runtime),
        Some(runtime) => runtime,
    };
    let transport = match filled(fields.transport) {
        None => transport.to_owned(),
        Some(transport) => transport,
    };
    let role = match filled(fields.role) {
        None => role,
        Some(given) => Some(given),
    };
    Ok(CardParts { version, runtime, transport, role })
}

impl CardParts {
    /// The card these parts make for an endpoint.
    #[must_use]
    pub fn into_card(&self, endpoint: &str) -> (card: PeerCard)
        ensures
            card@ == card_from(self@, endpoint@),
    {
        PeerCard::new(
            endpoint,
            self.version.as_str(),
            self.runtime.as_str(),
            self.transport.as_str(),
            copy_opt(&self.role),
        )
    }
}

/// What a peer publishes of the share beside its identity: the tree it is on
/// and the slots of it that it can serve.
#[derive(Debug, Clone, PartialEq, Eq)]
pub struct Advertised {
    pub tree: Option<String>,
    pub serving: Option<String>,
}

pub struct AdvertisedView {
    pub tree: Option<Seq<char>>,
    pub serving: Option<Seq<char>>,
}

impl View for Advertised {
    type V = AdvertisedView;

    open spec fn view(&self) -> AdvertisedView {
        AdvertisedView { tree: opt_text(self.tree), serving: opt_text(self.serving) }
    }
}

fn same_text(a: &Option<String>, b: &Option<String>) -> (same: bool)
    ensures
        same == (opt_text(*a) == opt_text(*b)),
{
    match (a, b) {
        (None, None) => true,
        (Some(a), Some(b)) => text_eq(a.as_str(), b.as_str()),
        _ => false,
    }
}

impl Default for Advertised {
    fn default() -> (out: Self)
        ensures
            out@ == (AdvertisedView { tree: None, serving: None }),
    {
        Advertised { tree: None, serving: None }
    }
}

impl Advertised {
    /// Sets the tree. Says whether the card has to be published again: a
    /// rewrite is broadcast to the whole mesh, so the same value again is none.
    pub fn set_tree(&mut self, fingerprint: String) -> (republish: bool)
        ensures
            final(self)@ == (AdvertisedView { tree: Some(fingerprint@), ..old(self)@ }),
            republish == (old(self)@.tree != Some(fingerprint@)),
    {
        let next = Some(fingerprint);
        if same_text(&self.tree, &next) {
            return false;
        }
        self.tree = next;
        true
    }

    /// Sets what can be served, or that nothing can be vouched for. Says whether
    /// the card has to be published again.
    pub fn set_serving(&mut self, encoded: Option<String>) -> (republish: bool)
        ensures
            final(self)@ == (AdvertisedView { serving: opt_text(encoded), ..old(self)@ }),
            republish == (old(self)@.serving != opt_text(encoded)),
    {
        if same_text(&self.serving, &encoded) {
            return false;
        }
        self.serving = encoded;
        true
    }

    /// The card to publish.
    #[must_use]
    pub fn card(&self, parts: &CardParts, endpoint: &str) -> (card: PeerCard)
        ensures
            card@ == (CardView {
                tree: self@.tree,
                serving: self@.serving,
                ..card_from(parts@, endpoint@)
            }),
    {
        parts.into_card(endpoint).with_tree(copy_opt(&self.tree)).with_serving(
            copy_opt(&self.serving),
        )
    }
}

/// The document that publishes a card under a name when it is merged in.
#[must_use]
pub fn card_merge(nickname: &str, card: &PeerCard) -> (merge: serde_json::Value)
    ensures
        published_card(merge, nickname@) == card_of_texts(texts_of_card(card@)),
        forall|other: Seq<char>|
            other != nickname@ ==> #[trigger] published_card(merge, other) is None,
{
    let mut own = new_map();
    insert(&mut own, "card", card.to_card_value());
    let mut peers = new_map();
    insert(&mut peers, nickname, object(own));
    let mut root = new_map();
    insert(&mut root, "peers", object(peers));
    object(root)
}

/// A peer that merges a card in is read back as that card by everybody, and
/// publishes under no other name.
pub proof fn law_a_published_card_is_read_back(parts: PartsView, endpoint: Seq<char>)
    ensures
        card_of_texts(texts_of_card(card_from(parts, endpoint))) == Some(
            card_from(parts, endpoint),
        ),
{
    reveal_strlit("agent-share");
    crate::client::law_card_round_trip(card_from(parts, endpoint));
}

/// The cards a peer has read of the others, one for each endpoint.
pub struct CardBook {
    cards: Vec<PeerCard>,
}

/// Whether no endpoint has two cards.
pub open spec fn one_card_each(cards: Seq<CardView>) -> bool {
    forall|i: int, j: int|
        0 <= i < j < cards.len() ==> (#[trigger] cards[i]).endpoint != (#[trigger] cards[j]).endpoint
}

impl View for CardBook {
    type V = Seq<CardView>;

    closed spec fn view(&self) -> Seq<CardView> {
        card_views(self.cards@)
    }
}

/// Whether a card is in a book.
pub open spec fn in_book(cards: Seq<CardView>, card: CardView) -> bool {
    exists|i: int| 0 <= i < cards.len() && #[trigger] cards[i] == card
}

/// Whether a name is the greatest of those that publish a card for its endpoint.
pub open spec fn speaks_last(doc: serde_json::Value, name: Seq<char>) -> bool {
    published_card(doc, name) matches Some(card) && forall|other: Seq<char>|
        (#[trigger] published_card(doc, other)) is Some && published_card(
            doc,
            other,
        )->Some_0.endpoint == card.endpoint && other != name ==> text_lt(other, name)
}

/// Whether a card is what the greatest name of its endpoint publishes.
pub open spec fn is_last_word(doc: serde_json::Value, card: CardView) -> bool {
    exists|name: Seq<char>| #[trigger]
        speaks_last(doc, name) && published_card(doc, name) == Some(card)
}

/// Whether entry `i` holds a card, and no later one has its endpoint.
spec fn is_last_of(entries: Seq<EntryView>, i: int, card: CardView) -> bool {
    &&& 0 <= i < entries.len()
    &&& entries[i].card == card
    &&& forall|j: int|
        i < j < entries.len() ==> (#[trigger] entries[j]).card.endpoint != card.endpoint
}

impl CardBook {
    /// Every endpoint has one card.
    pub open spec fn wf(&self) -> bool {
        one_card_each(self@)
    }

    /// A book with one card in it: a peer's own, before anything was read.
    #[must_use]
    pub fn seeded(own: PeerCard) -> (book: Self)
        ensures
            book.wf(),
            book@ == seq![own@],
    {
        let mut cards: Vec<PeerCard> = Vec::new();
        cards.push(own);
        assert(card_views(cards@) =~= seq![own@]);
        CardBook { cards }
    }

    fn find(&self, endpoint: &str) -> (at: Option<usize>)
        requires
            self.wf(),
        ensures
            match at {
                Some(i) => i < self@.len() && self@[i as int].endpoint == endpoint@,
                None => forall|i: int|
                    0 <= i < self@.len() ==> (#[trigger] self@[i]).endpoint != endpoint@,
            },
            self@.len() == self.cards@.len(),
    {
        let mut i: usize = 0;
        while i < self.cards.len()
            invariant
                0 <= i <= self.cards@.len(),
                forall|j: int| 0 <= j < i ==> (#[trigger] self@[j]).endpoint != endpoint@,
            decreases self.cards@.len() - i,
        {
            assert(self@[i as int] == self.cards@[i as int]@);
            if text_eq(self.cards[i].endpoint.as_str(), endpoint) {
                return Some(i);
            }
            i += 1;
        }
        None
    }

    /// Sets the card of its endpoint.
    fn put(&mut self, card: PeerCard)
        requires
            old(self).wf(),
        ensures
            final(self).wf(),
            in_book(final(self)@, card@),
            forall|c: CardView| #[trigger]
                in_book(final(self)@, c) ==> c == card@ || (in_book(old(self)@, c) && c.endpoint
                    != card@.endpoint),
            forall|c: CardView|
                in_book(old(self)@, c) && c.endpoint != card@.endpoint ==> #[trigger] in_book(
                    final(self)@,
                    c,
                ),
    {
        let ghost was = self@;
        let ghost v = card@;
        let found: Option<usize> = self.find(card.endpoint.as_str());
        let ghost at: int = match found {
            Some(i) => i as int,
            None => was.len() as int,
        };
        match found {
            Some(i) => {
                self.cards.set(i, card);
                assert(self@ =~= was.update(at, v));
            },
            None => {
                self.cards.push(card);
                assert(self@ =~= was.push(v));
            },
        }
        proof {
            let now = self@;
            assert(now[at] == v);
            assert forall|c: CardView| #[trigger] in_book(now, c) implies c == v || (in_book(
                was,
                c,
            ) && c.endpoint != v.endpoint) by {
                let i = choose|i: int| 0 <= i < now.len() && #[trigger] now[i] == c;
                if i != at {
                    assert(was[i] == c);
                }
            }
            assert forall|c: CardView|
                in_book(was, c) && c.endpoint != v.endpoint implies #[trigger] in_book(now, c) by {
                let i = choose|i: int| 0 <= i < was.len() && #[trigger] was[i] == c;
                assert(now[i] == c);
            }
        }
    }

    /// The book of a meta document: a card for every endpoint that some peer
    /// publishes a readable card for. Peers that left are still in it. Where
    /// several peers publish one endpoint, the card of the greatest name stays.
    #[must_use]
    pub fn refresh_book(doc: &serde_json::Value) -> (book: Self)
        ensures
            book.wf(),
            forall|card: CardView| #[trigger] in_book(book@, card) ==> is_last_word(*doc, card),
            forall|name: Seq<char>|
                (#[trigger] published_card(*doc, name)) is Some ==> has_card_for(
                    book@,
                    published_card(*doc, name)->Some_0.endpoint,
                ),
    {
        let entries = entries_from_meta(doc);
        let ghost all = entry_views(entries@);
        let mut book = CardBook { cards: Vec::new() };
        assert(book@ =~= Seq::<CardView>::empty());
        let mut k: usize = 0;
        while k < entries.len()
            invariant
                0 <= k <= entries@.len(),
                all == entry_views(entries@),
                book.wf(),
                forall|card: CardView| #[trigger]
                    in_book(book@, card) ==> exists|i: int| #[trigger]
                        is_last_of(all.take(k as int), i, card),
                forall|i: int|
                    0 <= i < k ==> has_card_for(book@, (#[trigger] all[i]).card.endpoint),
            decreases entries@.len() - k,
        {
            let ghost was = book@;
            let ghost v = entries@[k as int].card@;
            assert(all[k as int] == entries@[k as int]@);
            book.put(entries[k].card.copy());
            proof {
                let short = all.take(k as int);
                let long = all.take(k as int + 1);
                assert forall|card: CardView| #[trigger] in_book(book@, card) implies exists|
                    i: int,
                | #[trigger] is_last_of(long, i, card) by {
                    if card == v {
                        assert(is_last_of(long, k as int, card));
                    } else {
                        assert(in_book(was, card));
                        let i = choose|i: int| #[trigger] is_last_of(short, i, card);
                        assert forall|j: int| i < j < long.len() implies (
                        #[trigger] long[j]).card.endpoint != card.endpoint by {
                            if j < k {
                                assert(short[j] == long[j]);
                            }
                        }
                        assert(short[i] == long[i]);
                        assert(is_last_of(long, i, card));
                    }
                }
                let at = choose|i: int| 0 <= i < book@.len() && #[trigger] book@[i] == v;
                assert(book@[at].endpoint == v.endpoint);
                assert forall|i: int| 0 <= i < k + 1 implies has_card_for(
                    book@,
                    (#[trigger] all[i]).card.endpoint,
                ) by {
                    let e = all[i].card.endpoint;
                    if i < k && e != v.endpoint {
                        let j = choose|j: int| 0 <= j < was.len() && (#[trigger] was[j]).endpoint == e;
                        assert(in_book(was, was[j]));
                        assert(in_book(book@, was[j]));
                        let l = choose|l: int| 0 <= l < book@.len() && #[trigger] book@[l] == was[j];
                        assert(book@[l].endpoint == e);
                    }
                }
            }
            k += 1;
        }
        proof {
            assert(all.take(k as int) =~= all);
            assert forall|card: CardView| #[trigger] in_book(book@, card) implies is_last_word(
                *doc,
                card,
            ) by {
                let i = choose|i: int| #[trigger] is_last_of(all, i, card);
                assert(all[i] == entries@[i]@);
                let name = all[i].nickname;
                assert forall|other: Seq<char>|
                    (#[trigger] published_card(*doc, other)) is Some && published_card(
                        *doc,
                        other,
                    )->Some_0.endpoint == card.endpoint && other != name implies text_lt(
                    other,
                    name,
                ) by {
                    let j = choose|j: int| 0 <= j < all.len() && (#[trigger] all[j]).nickname == other;
                    assert(all[j] == entries@[j]@);
                    assert(j < i);
                }
                assert(speaks_last(*doc, name));
            }
            assert forall|name: Seq<char>|
                (#[trigger] published_card(*doc, name)) is Some implies has_card_for(
                book@,
                published_card(*doc, name)->Some_0.endpoint,
            ) by {
                let i = choose|i: int| 0 <= i < all.len() && (#[trigger] all[i]).nickname == name;
                assert(all[i] == entries@[i]@);
                assert(has_card_for(book@, all[i].card.endpoint));
            }
        }
        book
    }

    /// The card of an endpoint.
    #[must_use]
    pub fn card_for(&self, endpoint: &str) -> (card: Option<PeerCard>)
        requires
            self.wf(),
        ensures
            match card {
                Some(c) => c@.endpoint == endpoint@ && in_book(self@, c@),
                None => forall|i: int|
                    0 <= i < self@.len() ==> (#[trigger] self@[i]).endpoint != endpoint@,
            },
    {
        match self.find(endpoint) {
            None => None,
            Some(i) => {
                assert(self@[i as int] == self.cards@[i as int]@);
                Some(self.cards[i].copy())
            },
        }
    }

    /// All the cards.
    #[must_use]
    pub fn known_cards(&self) -> (cards: Vec<PeerCard>)
        ensures
            card_views(cards@) == self@,
    {
        let mut cards: Vec<PeerCard> = Vec::new();
        let mut i: usize = 0;
        while i < self.cards.len()
            invariant
                0 <= i <= self.cards@.len(),
                cards@.len() == i,
                forall|j: int| 0 <= j < i ==> (#[trigger] cards@[j])@ == self.cards@[j]@,
            decreases self.cards@.len() - i,
        {
            cards.push(self.cards[i].copy());
            i += 1;
        }
        assert(card_views(cards@) =~= self@);
        cards
    }
}

/// Whether some card is of an endpoint.
pub open spec fn has_card_for(cards: Seq<CardView>, endpoint: Seq<char>) -> bool {
    exists|i: int| 0 <= i < cards.len() && (#[trigger] cards[i]).endpoint == endpoint
}

/// The refusal of a mesh transport.
pub open spec fn unknown_mesh_transport(mode: Seq<char>) -> Seq<char> {
    "unknown transport "@ + quoted(mode) + "; expected `webrtc` or `dynamic`"@
}

/// Whether a mesh peer's data plane is `WebRTC` alone. None, a blank one and
/// `dynamic` are everything there is.
///
/// # Errors
/// Unknown non-blank value.
pub fn parse_transport(mode: Option<&str>) -> (webrtc_only: Result<bool, String>)
    ensures
        match opt_str(mode) {
            None => webrtc_only == Ok::<bool, String>(false),
            Some(text) => {
                let name = trimmed(text);
                if name.len() == 0 || name == "dynamic"@ {
                    webrtc_only == Ok::<bool, String>(false)
                } else if name == "webrtc"@ {
                    webrtc_only == Ok::<bool, String>(true)
                } else {
                    webrtc_only is Err && webrtc_only->Err_0@ == unknown_mesh_transport(name)
                }
            },
        },
{
    let text = match mode {
        None => return Ok(false),
        Some(text) => text,
    };
    let chars = chars_of(text);
    let body = trim_chars(chars.as_slice());
    let name = text_of(body);
    if body.len() == 0 || text_eq(name.as_str(), "dynamic") {
        return Ok(false);
    }
    if text_eq(name.as_str(), "webrtc") {
        return Ok(true);
    }
    let mut refusal = String::new();
    refusal.push_str("unknown transport ");
    refusal.push_str(quoted_text(name.as_str()).as_str());
    refusal.push_str("; expected `webrtc` or `dynamic`");
    assert(refusal@ =~= unknown_mesh_transport(name@));
    Err(refusal)
}

/// A count as the field that shows it can say it.
#[must_use]
pub fn shown_count(n: usize) -> (out: u32)
    ensures
        out == (if n <= u32::MAX {
            n as u32
        } else {
            u32::MAX
        }),
{
    if n <= u32::MAX as usize {
        n as u32
    } else {
        u32::MAX
    }
}

/// A card says who publishes it and with what, and nothing of the share yet. Its
/// label shows the version, the runtime and the transport.
pub proof fn law_a_card_says_who_publishes_it(parts: PartsView, endpoint: Seq<char>)
    ensures
        ({
            let card = card_from(parts, endpoint);
            &&& card.endpoint == endpoint
            &&& card.app == "agent-share"@
            &&& card.version == parts.version
            &&& card.runtime == parts.runtime
            &&& card.transport == parts.transport
            &&& card.client == "agent-share"@ + " v"@ + parts.version + " ("@ + parts.runtime + ", "@
                + parts.transport + ")"@
            &&& card.role == parts.role
            &&& card.tree is None
            &&& card.serving is None
        }),
{
}

/// A text that is given counts, unless it is empty.
pub proof fn law_an_empty_text_says_nothing(text: Seq<char>)
    ensures
        text.len() > 0 ==> said(Some(text)) == Some(text),
        text.len() == 0 ==> said(Some(text)) is None,
        said(None) is None,
{
}

} // verus!
