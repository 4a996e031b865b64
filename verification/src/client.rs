//! A peer's card: the identity it publishes on the share's mesh.
use crate::json::{
    as_text, insert, json_members, json_text, map_members, member, new_map, object, text_member_of,
    text_value,
};
use crate::text::{copy_opt, is_blank, opt_text};
use vstd::prelude::*;

verus! {

/// The product every card names unless it says otherwise.
pub const PRODUCT: &'static str = "agent-share";

pub const CARD_CLIENT: &'static str = "client";

pub const CARD_ENDPOINT: &'static str = "endpoint";

pub const CARD_APP: &'static str = "app";

pub const CARD_VERSION: &'static str = "version";

pub const CARD_RUNTIME: &'static str = "runtime";

pub const CARD_TRANSPORT: &'static str = "transport";

pub const CARD_ROLE: &'static str = "role";

/// The fingerprint of the tree the peer has seen.
pub const CARD_TREE: &'static str = "tree";

/// The slots of that tree the peer can serve.
pub const CARD_SERVING: &'static str = "serving";

/// A peer's card.
#[derive(Debug, Clone, PartialEq, Eq)]
pub struct PeerCard {
    pub endpoint: String,
    pub app: String,
    pub version: String,
    pub runtime: String,
    pub transport: String,
    pub client: String,
    pub role: Option<String>,
    pub tree: Option<String>,
    pub serving: Option<String>,
}

pub struct CardView {
    pub endpoint: Seq<char>,
    pub app: Seq<char>,
    pub version: Seq<char>,
    pub runtime: Seq<char>,
    pub transport: Seq<char>,
    pub client: Seq<char>,
    pub role: Option<Seq<char>>,
    pub tree: Option<Seq<char>>,
    pub serving: Option<Seq<char>>,
}

impl View for PeerCard {
    type V = CardView;

    open spec fn view(&self) -> CardView {
        CardView {
            endpoint: self.endpoint@,
            app: self.app@,
            version: self.version@,
            runtime: self.runtime@,
            transport: self.transport@,
            client: self.client@,
            role: opt_text(self.role),
            tree: opt_text(self.tree),
            serving: opt_text(self.serving),
        }
    }
}

/// The texts a published card may carry.
pub struct CardTexts {
    pub endpoint: Option<String>,
    pub app: Option<String>,
    pub version: Option<String>,
    pub runtime: Option<String>,
    pub transport: Option<String>,
    pub client: Option<String>,
    pub role: Option<String>,
    pub tree: Option<String>,
    pub serving: Option<String>,
}

pub struct CardTextsView {
    pub endpoint: Option<Seq<char>>,
    pub app: Option<Seq<char>>,
    pub version: Option<Seq<char>>,
    pub runtime: Option<Seq<char>>,
    pub transport: Option<Seq<char>>,
    pub client: Option<Seq<char>>,
    pub role: Option<Seq<char>>,
    pub tree: Option<Seq<char>>,
    pub serving: Option<Seq<char>>,
}

impl View for CardTexts {
    type V = CardTextsView;

    open spec fn view(&self) -> CardTextsView {
        CardTextsView {
            endpoint: opt_text(self.endpoint),
            app: opt_text(self.app),
            version: opt_text(self.version),
            runtime: opt_text(self.runtime),
            transport: opt_text(self.transport),
            client: opt_text(self.client),
            role: opt_text(self.role),
            tree: opt_text(self.tree),
            serving: opt_text(self.serving),
        }
    }
}

/// A peer's display label: `agent-share v1.2.3 (chrome, webrtc)`.
pub open spec fn label(version: Seq<char>, runtime: Seq<char>, transport: Seq<char>) -> Seq<char> {
    PRODUCT@ + " v"@ + version + " ("@ + runtime + ", "@ + transport + ")"@
}

#[must_use]
pub fn format_label(version: &str, runtime: &str, transport: &str) -> (out: String)
    ensures
        out@ == label(version@, runtime@, transport@),
{
    let mut out = PRODUCT.to_owned();
    out.push_str(" v");
    out.push_str(version);
    out.push_str(" (");
    out.push_str(runtime);
    out.push_str(", ");
    out.push_str(transport);
    out.push_str(")");
    out
}

pub open spec fn text_or(text: Option<Seq<char>>, default: Seq<char>) -> Seq<char> {
    match text {
        Some(t) => t,
        None => default,
    }
}

/// The client label a card shows: the one it carries, or one made of its parts,
/// or `unknown` where a part is missing.
pub open spec fn shown_client(
    client: Option<Seq<char>>,
    version: Seq<char>,
    runtime: Seq<char>,
    transport: Seq<char>,
) -> Seq<char> {
    if client matches Some(c) && c.len() > 0 {
        client->Some_0
    } else if version.len() == 0 || runtime.len() == 0 || transport.len() == 0 {
        "unknown"@
    } else {
        label(version, runtime, transport)
    }
}

/// The card that texts amount to. Only the endpoint has to be there.
pub open spec fn card_of_texts(texts: CardTextsView) -> Option<CardView> {
    match texts.endpoint {
        None => None,
        Some(endpoint) => {
            let version = text_or(texts.version, Seq::empty());
            let runtime = text_or(texts.runtime, Seq::empty());
            let transport = text_or(texts.transport, Seq::empty());
            Some(
                CardView {
                    endpoint,
                    app: text_or(texts.app, PRODUCT@),
                    version,
                    runtime,
                    transport,
                    client: shown_client(texts.client, version, runtime, transport),
                    role: texts.role,
                    tree: texts.tree,
                    serving: texts.serving,
                },
            )
        },
    }
}

/// The texts a JSON value carries under the card's names.
pub open spec fn texts_of_value(value: serde_json::Value) -> CardTextsView {
    CardTextsView {
        endpoint: text_member_of(value, CARD_ENDPOINT@),
        app: text_member_of(value, CARD_APP@),
        version: text_member_of(value, CARD_VERSION@),
        runtime: text_member_of(value, CARD_RUNTIME@),
        transport: text_member_of(value, CARD_TRANSPORT@),
        client: text_member_of(value, CARD_CLIENT@),
        role: text_member_of(value, CARD_ROLE@),
        tree: text_member_of(value, CARD_TREE@),
        serving: text_member_of(value, CARD_SERVING@),
    }
}

/// The card a JSON value carries.
pub open spec fn card_of_value(value: serde_json::Value) -> Option<CardView> {
    card_of_texts(texts_of_value(value))
}

/// The texts of a card as it is published.
pub open spec fn texts_of_card(card: CardView) -> CardTextsView {
    CardTextsView {
        endpoint: Some(card.endpoint),
        app: Some(card.app),
        version: Some(card.version),
        runtime: Some(card.runtime),
        transport: Some(card.transport),
        client: Some(card.client),
        role: card.role,
        tree: card.tree,
        serving: card.serving,
    }
}

fn text_member(value: &serde_json::Value, name: &str) -> (out: Option<String>)
    ensures
        opt_text(out) == text_member_of(*value, name@),
{
    match member(value, name) {
        Some(v) => as_text(v),
        None => None,
    }
}

fn or_blank(text: Option<String>) -> (out: String)
    ensures
        out@ == text_or(opt_text(text), Seq::empty()),
{
    match text {
        Some(t) => t,
        None => {
            let out = String::new();
            assert(out@ =~= Seq::empty());
            out
        },
    }
}

fn insert_text(
    map: &mut serde_json::Map<String, serde_json::Value>,
    name: &str,
    text: &str,
)
    ensures
        exists|value: serde_json::Value|
            {
                &&& #[trigger] json_text(value) == Some(text@)
                &&& map_members(*final(map)) == map_members(*old(map)).insert(name@, value)
            },
{
    let value = text_value(text);
    assert(json_text(value) == Some(text@));
    insert(map, name, value);
}

/// The text a map under construction holds under a name.
spec fn map_text(
    map: serde_json::Map<String, serde_json::Value>,
    name: Seq<char>,
) -> Option<Seq<char>> {
    if map_members(map).contains_key(name) {
        json_text(map_members(map)[name])
    } else {
        None
    }
}

fn put(map: &mut serde_json::Map<String, serde_json::Value>, name: &str, text: &str)
    ensures
        map_text(*final(map), name@) == Some(text@),
        forall|other: Seq<char>|
            other != name@ ==> #[trigger] map_text(*final(map), other) == map_text(
                *old(map),
                other,
            ),
{
    insert_text(map, name, text);
}

fn put_opt(
    map: &mut serde_json::Map<String, serde_json::Value>,
    name: &str,
    text: &Option<String>,
)
    requires
        map_text(*old(map), name@) is None,
    ensures
        map_text(*final(map), name@) == opt_text(*text),
        forall|other: Seq<char>|
            other != name@ ==> #[trigger] map_text(*final(map), other) == map_text(
                *old(map),
                other,
            ),
{
    match text {
        Some(t) => put(map, name, t.as_str()),
        None => {},
    }
}

proof fn lemma_names_differ()
    ensures
        CARD_ENDPOINT@.len() == 8,
        CARD_APP@.len() == 3,
        CARD_VERSION@.len() == 7 && CARD_VERSION@[0] == 'v',
        CARD_RUNTIME@.len() == 7 && CARD_RUNTIME@[0] == 'r',
        CARD_TRANSPORT@.len() == 9,
        CARD_CLIENT@.len() == 6,
        CARD_ROLE@.len() == 4 && CARD_ROLE@[0] == 'r',
        CARD_TREE@.len() == 4 && CARD_TREE@[0] == 't',
        CARD_SERVING@.len() == 7 && CARD_SERVING@[0] == 's',
{
    reveal_strlit("endpoint");
    reveal_strlit("app");
    reveal_strlit("version");
    reveal_strlit("runtime");
    reveal_strlit("transport");
    reveal_strlit("client");
    reveal_strlit("role");
    reveal_strlit("tree");
    reveal_strlit("serving");
}

impl PeerCard {
    /// A card that says nothing of a tree yet.
    #[must_use]
    pub fn new(
        endpoint: &str,
        version: &str,
        runtime: &str,
        transport: &str,
        role: Option<String>,
    ) -> (card: Self)
        ensures
            card@ == (CardView {
                endpoint: endpoint@,
                app: PRODUCT@,
                version: version@,
                runtime: runtime@,
                transport: transport@,
                client: label(version@, runtime@, transport@),
                role: opt_text(role),
                tree: None,
                serving: None,
            }),
    {
        PeerCard {
            endpoint: endpoint.to_owned(),
            app: PRODUCT.to_owned(),
            version: version.to_owned(),
            runtime: runtime.to_owned(),
            transport: transport.to_owned(),
            client: format_label(version, runtime, transport),
            role,
            tree: None,
            serving: None,
        }
    }

    /// The card with a tree fingerprint, or without one.
    #[must_use]
    pub fn with_tree(self, tree: Option<String>) -> (card: Self)
        ensures
            card@ == (CardView { tree: opt_text(tree), ..self@ }),
    {
        let mut card = self;
        card.tree = tree;
        card
    }

    /// The card with the slots the peer can serve, or without.
    #[must_use]
    pub fn with_serving(self, serving: Option<String>) -> (card: Self)
        ensures
            card@ == (CardView { serving: opt_text(serving), ..self@ }),
    {
        let mut card = self;
        card.serving = serving;
        card
    }

    /// The same card again.
    pub fn copy(&self) -> (card: Self)
        ensures
            card@ == self@,
    {
        PeerCard {
            endpoint: self.endpoint.clone(),
            app: self.app.clone(),
            version: self.version.clone(),
            runtime: self.runtime.clone(),
            transport: self.transport.clone(),
            client: self.client.clone(),
            role: copy_opt(&self.role),
            tree: copy_opt(&self.tree),
            serving: copy_opt(&self.serving),
        }
    }

    /// The card as a JSON object. An absent role, tree or serving is left out.
    #[must_use]
    pub fn to_card_value(&self) -> (value: serde_json::Value)
        ensures
            json_members(value) is Some,
            texts_of_value(value) == texts_of_card(self@),
    {
        proof {
            lemma_names_differ();
        }
        let mut map = new_map();
        put(&mut map, CARD_ENDPOINT, self.endpoint.as_str());
        put(&mut map, CARD_APP, self.app.as_str());
        put(&mut map, CARD_VERSION, self.version.as_str());
        put(&mut map, CARD_RUNTIME, self.runtime.as_str());
        put(&mut map, CARD_TRANSPORT, self.transport.as_str());
        put(&mut map, CARD_CLIENT, self.client.as_str());
        put_opt(&mut map, CARD_ROLE, &self.role);
        put_opt(&mut map, CARD_TREE, &self.tree);
        put_opt(&mut map, CARD_SERVING, &self.serving);
        let ghost done = map;
        let value = object(map);
        assert forall|name: Seq<char>| #[trigger] text_member_of(value, name) == map_text(
            done,
            name,
        ) by {}
        value
    }

    /// The card that texts amount to; `None` without an endpoint.
    #[must_use]
    pub fn from_texts(texts: CardTexts) -> (card: Option<Self>)
        ensures
            match card_of_texts(texts@) {
                Some(c) => card is Some && card->Some_0@ == c,
                None => card is None,
            },
    {
        let endpoint = match texts.endpoint {
            Some(t) => t,
            None => return None,
        };
        let app = match texts.app {
            Some(t) => t,
            None => PRODUCT.to_owned(),
        };
        let version = or_blank(texts.version);
        let runtime = or_blank(texts.runtime);
        let transport = or_blank(texts.transport);
        let carried = match texts.client {
            Some(t) => {
                if is_blank(t.as_str()) {
                    None
                } else {
                    Some(t)
                }
            },
            None => None,
        };
        let client = match carried {
            Some(t) => t,
            None => {
                if is_blank(version.as_str()) || is_blank(runtime.as_str()) || is_blank(
                    transport.as_str(),
                ) {
                    "unknown".to_owned()
                } else {
                    format_label(version.as_str(), runtime.as_str(), transport.as_str())
                }
            },
        };
        Some(
            PeerCard {
                endpoint,
                app,
                version,
                runtime,
                transport,
                client,
                role: texts.role,
                tree: texts.tree,
                serving: texts.serving,
            },
        )
    }

    /// The card a JSON value carries, read for what it has; `None` without an
    /// endpoint.
    #[must_use]
    pub fn from_card_value(value: &serde_json::Value) -> (card: Option<Self>)
        ensures
            match card_of_value(*value) {
                Some(c) => card is Some && card->Some_0@ == c,
                None => card is None,
            },
    {
        let texts = CardTexts {
            endpoint: text_member(value, CARD_ENDPOINT),
            app: text_member(value, CARD_APP),
            version: text_member(value, CARD_VERSION),
            runtime: text_member(value, CARD_RUNTIME),
            transport: text_member(value, CARD_TRANSPORT),
            client: text_member(value, CARD_CLIENT),
            role: text_member(value, CARD_ROLE),
            tree: text_member(value, CARD_TREE),
            serving: text_member(value, CARD_SERVING),
        };
        PeerCard::from_texts(texts)
    }
}

/// A card with a client label reads back from its published texts unchanged.
pub proof fn law_card_round_trip(card: CardView)
    requires
        card.client.len() > 0,
    ensures
        card_of_texts(texts_of_card(card)) == Some(card),
{
}

/// A card is read from any value that names an endpoint. What else it names is taken
/// as it is; without an app it is one of this product, and a missing part is empty.
pub proof fn law_a_card_is_read_as_it_is(value: serde_json::Value)
    ensures
        match card_of_value(value) {
            None => text_member_of(value, "endpoint"@) is None,
            Some(card) => {
                &&& text_member_of(value, "endpoint"@) == Some(card.endpoint)
                &&& card.app == text_or(text_member_of(value, "app"@), "agent-share"@)
                &&& card.version == text_or(text_member_of(value, "version"@), Seq::empty())
                &&& card.runtime == text_or(text_member_of(value, "runtime"@), Seq::empty())
                &&& card.transport == text_or(text_member_of(value, "transport"@), Seq::empty())
                &&& card.role == text_member_of(value, "role"@)
                &&& card.tree == text_member_of(value, "tree"@)
                &&& card.serving == text_member_of(value, "serving"@)
                &&& card.client == shown_client(
                    text_member_of(value, "client"@),
                    card.version,
                    card.runtime,
                    card.transport,
                )
            },
        },
{
}

/// A card shows the label it carries. Without one it shows the label its version,
/// runtime and transport make, and `unknown` where any of them is missing.
pub proof fn law_a_card_shows_a_label(
    client: Seq<char>,
    version: Seq<char>,
    runtime: Seq<char>,
    transport: Seq<char>,
)
    ensures
        client.len() > 0 ==> shown_client(Some(client), version, runtime, transport) == client,
        shown_client(Some(Seq::empty()), version, runtime, transport) == shown_client(
            None,
            version,
            runtime,
            transport,
        ),
        version.len() > 0 && runtime.len() > 0 && transport.len() > 0 ==> shown_client(
            None,
            version,
            runtime,
            transport,
        ) == "agent-share"@ + " v"@ + version + " ("@ + runtime + ", "@ + transport + ")"@,
        version.len() == 0 || runtime.len() == 0 || transport.len() == 0 ==> shown_client(
            None,
            version,
            runtime,
            transport,
        ) == "unknown"@,
        text_or(Some(client), version) == client,
        text_or(None, version) == version,
{
}

/// A card is published under the names it is read under.
pub proof fn law_a_card_is_published_whole(card: CardView)
    ensures
        ({
            let texts = texts_of_card(card);
            &&& texts.endpoint == Some(card.endpoint)
            &&& texts.app == Some(card.app)
            &&& texts.version == Some(card.version)
            &&& texts.runtime == Some(card.runtime)
            &&& texts.transport == Some(card.transport)
            &&& texts.client == Some(card.client)
            &&& texts.role == card.role
            &&& texts.tree == card.tree
            &&& texts.serving == card.serving
        }),
{
}

} // verus!
