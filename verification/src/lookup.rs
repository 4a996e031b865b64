//! How a share's peers find each other: the discovery settings in its ticket.
use crate::codec::{
    bytes_of, get_u16, lemma_bytes_of_push, lemma_concat_assoc, lemma_many_parses, lemma_parse_step,
    lemma_prepend_nothing, lemma_u16_le, parse_bytes, parse_many, parse_u16, parse_u8, prepend,
    put_text16, text16, u16_of, utf8_text, Cursor, Parsed,
};
use crate::error::WireError;
use crate::text::opt_text;
use vstd::prelude::*;
use vstd::slice::{slice_subrange, slice_to_vec};
use vstd::utf8::{
    decode_utf8, encode_utf8, encode_utf8_decode_utf8, encode_utf8_valid_utf8, valid_utf8,
};

verus! {

/// Longest relay ladder.
pub const MAX_RELAY_LADDER: usize = 16;

/// Longest relay URL.
pub const MAX_RELAY_URL_BYTES: usize = 512;

/// The normal form of a relay URL; `None` for text that is no URL.
pub uninterp spec fn relay_url_text(text: Seq<char>) -> Option<Seq<char>>;

/// `iroh_base::RelayUrl::from_str` and its `Display`: whether a text is a relay
/// URL, and the text the URL is shown as, are functions of the text. That the
/// shown text parses to itself is not claimed.
#[verifier::external_body]
fn parse_relay_url(text: &str) -> (out: Option<String>)
    ensures
        opt_text(out) == relay_url_text(text@),
{
    text.parse::<iroh_base::RelayUrl>().ok().map(|url| url.to_string())
}

/// A relay server's URL, in normal form.
#[derive(Debug, Clone, PartialEq, Eq)]
pub struct RelayUrl {
    text: String,
}

impl View for RelayUrl {
    type V = Seq<char>;

    closed spec fn view(&self) -> Seq<char> {
        self.text@
    }
}

impl RelayUrl {
    /// # Errors
    /// The text is no URL.
    pub fn parse(text: &str) -> (url: Result<Self, WireError>)
        ensures
            match relay_url_text(text@) {
                Some(t) => url is Ok && url->Ok_0@ == t,
                None => url == Err::<Self, WireError>(WireError::BadRelayUrl),
            },
    {
        match parse_relay_url(text) {
            Some(text) => Ok(RelayUrl { text }),
            None => Err(WireError::BadRelayUrl),
        }
    }

    pub fn as_str(&self) -> (text: &str)
        ensures
            text@ == self@,
    {
        self.text.as_str()
    }

    /// The same URL again.
    pub fn copy(&self) -> (url: Self)
        ensures
            url@ == self@,
    {
        RelayUrl { text: self.text.clone() }
    }
}

/// The relay a share's peers meet at: none, the pinned ladder, or a ladder of
/// the operator's own.
#[derive(Debug, Clone, PartialEq, Eq)]
pub enum RelayChoice {
    Disabled,
    Pinned,
    Custom(Vec<RelayUrl>),
}

/// The discovery a share allows.
#[derive(Debug, Clone, PartialEq, Eq)]
pub struct LookupOpts {
    pub mdns: bool,
    pub dht: bool,
    pub relay: RelayChoice,
}

pub enum RelayView {
    Disabled,
    Pinned,
    Custom(Seq<Seq<char>>),
}

pub struct LookupView {
    pub mdns: bool,
    pub dht: bool,
    pub relay: RelayView,
}

pub open spec fn url_views(s: Seq<RelayUrl>) -> Seq<Seq<char>> {
    Seq::new(s.len(), |i: int| s[i]@)
}

impl View for RelayChoice {
    type V = RelayView;

    open spec fn view(&self) -> RelayView {
        match self {
            RelayChoice::Disabled => RelayView::Disabled,
            RelayChoice::Pinned => RelayView::Pinned,
            RelayChoice::Custom(ladder) => RelayView::Custom(url_views(ladder@)),
        }
    }
}

impl View for LookupOpts {
    type V = LookupView;

    open spec fn view(&self) -> LookupView {
        LookupView { mdns: self.mdns, dht: self.dht, relay: self.relay@ }
    }
}

/// Whether a ladder is short enough, and every URL in it.
pub open spec fn lookups_fit(v: LookupView) -> bool {
    v.relay matches RelayView::Custom(ladder) ==> {
        &&& 0 < ladder.len() <= MAX_RELAY_LADDER
        &&& forall|i: int|
            0 <= i < ladder.len() ==> encode_utf8(#[trigger] ladder[i]).len()
                <= MAX_RELAY_URL_BYTES
    }
}

/// Whether every URL of a ladder is in the form it parses to.
pub open spec fn ladder_normal(v: LookupView) -> bool {
    v.relay matches RelayView::Custom(ladder) ==> forall|i: int|
        0 <= i < ladder.len() ==> relay_url_text(#[trigger] ladder[i]) == Some(ladder[i])
}

/// The flag byte: mdns 1, dht 2, relay 4, custom ladder 8.
pub open spec fn lookup_flags(v: LookupView) -> u8 {
    ((if v.mdns {
        1int
    } else {
        0
    }) + (if v.dht {
        2int
    } else {
        0
    }) + (match v.relay {
        RelayView::Disabled => 0int,
        RelayView::Pinned => 4,
        RelayView::Custom(_) => 12,
    })) as u8
}

pub open spec fn put_url() -> spec_fn(Seq<char>) -> Seq<u8> {
    |t: Seq<char>| text16(t)
}

/// Wire layout: `flags(1)`, and for a custom ladder `count(1) ‖ (len(u16) ‖ url) × count`.
pub open spec fn lookup_bytes(v: LookupView) -> Seq<u8> {
    match v.relay {
        RelayView::Custom(ladder) => seq![lookup_flags(v), ladder.len() as u8] + bytes_of(
            ladder,
            put_url(),
        ),
        _ => seq![lookup_flags(v)],
    }
}

pub open spec fn parse_url(s: Seq<u8>) -> Parsed<Seq<char>> {
    match parse_u16(s) {
        Err(e) => Err(e),
        Ok((len, s1)) => if len > MAX_RELAY_URL_BYTES {
            Err(WireError::OverCap)
        } else {
            match parse_bytes(s1, len as nat) {
                Err(e) => Err(e),
                Ok((raw, s2)) => if !valid_utf8(raw) {
                    Err(WireError::NotUtf8)
                } else {
                    match relay_url_text(decode_utf8(raw)) {
                        Some(url) => Ok((url, s2)),
                        None => Err(WireError::BadRelayUrl),
                    }
                },
            }
        },
    }
}

pub open spec fn get_url() -> spec_fn(Seq<u8>) -> Parsed<Seq<char>> {
    |s: Seq<u8>| parse_url(s)
}

pub open spec fn parse_ladder(s: Seq<u8>) -> Parsed<Seq<Seq<char>>> {
    match parse_u8(s) {
        Err(e) => Err(e),
        Ok((count, s1)) => if count == 0 {
            Err(WireError::Empty)
        } else if count > MAX_RELAY_LADDER {
            Err(WireError::OverCap)
        } else {
            parse_many(s1, count as nat, get_url())
        },
    }
}

/// The settings off the front of some bytes.
pub open spec fn parse_lookups(s: Seq<u8>) -> Parsed<LookupView> {
    match parse_u8(s) {
        Err(e) => Err(e),
        Ok((flags, s1)) => {
            let mdns = flags % 2 == 1;
            let dht = (flags / 2) % 2 == 1;
            let enabled = (flags / 4) % 2 == 1;
            let custom = (flags / 8) % 2 == 1;
            if custom && !enabled {
                Err(WireError::RelayNotEnabled)
            } else if !enabled {
                Ok((LookupView { mdns, dht, relay: RelayView::Disabled }, s1))
            } else if !custom {
                Ok((LookupView { mdns, dht, relay: RelayView::Pinned }, s1))
            } else {
                match parse_ladder(s1) {
                    Err(e) => Err(e),
                    Ok((ladder, s2)) => Ok(
                        (LookupView { mdns, dht, relay: RelayView::Custom(ladder) }, s2),
                    ),
                }
            }
        },
    }
}

/// Settings whose URLs are in normal form read back as what was encoded, and the
/// reader stops where they end.
pub proof fn law_lookups_round_trip(v: LookupView, rest: Seq<u8>)
    requires
        lookups_fit(v),
    ensures
        ladder_normal(v) ==> parse_lookups(lookup_bytes(v) + rest) == Ok::<
            (LookupView, Seq<u8>),
            WireError,
        >((v, rest)),
{
    let s = lookup_bytes(v) + rest;
    let flags = lookup_flags(v);
    assert(s[0] == flags);
    match v.relay {
        RelayView::Custom(ladder) => {
            let list = bytes_of(ladder, put_url());
            assert(s.skip(1) =~= seq![ladder.len() as u8] + (list + rest));
            assert(s.skip(1).skip(1) =~= list + rest);
            if ladder_normal(v) {
                assert forall|i: int, r: Seq<u8>|
                    0 <= i < ladder.len() implies #[trigger] get_url()(put_url()(ladder[i]) + r)
                    == Ok::<(Seq<char>, Seq<u8>), WireError>((ladder[i], r)) by {
                    lemma_url_parses(ladder[i], r);
                }
                lemma_many_parses(ladder, rest, put_url(), get_url());
            }
        },
        _ => {
            assert(s.skip(1) =~= rest);
        },
    }
}

proof fn lemma_url_parses(url: Seq<char>, r: Seq<u8>)
    requires
        encode_utf8(url).len() <= MAX_RELAY_URL_BYTES,
        relay_url_text(url) == Some(url),
    ensures
        parse_url(text16(url) + r) == Ok::<(Seq<char>, Seq<u8>), WireError>((url, r)),
{
    let raw = encode_utf8(url);
    let len = raw.len() as u16;
    lemma_concat_assoc(crate::codec::u16_le(len), raw, r);
    lemma_u16_le(len, raw + r);
    assert((raw + r).take(len as int) =~= raw);
    assert((raw + r).skip(len as int) =~= r);
    encode_utf8_valid_utf8(url);
    encode_utf8_decode_utf8(url);
}

impl LookupOpts {
    /// No lookups and no relay.
    #[must_use]
    pub fn loopback() -> (out: Self)
        ensures
            out@ == (LookupView { mdns: false, dht: false, relay: RelayView::Disabled }),
    {
        LookupOpts { mdns: false, dht: false, relay: RelayChoice::Disabled }
    }

    /// Both lookups and the pinned relay ladder.
    #[must_use]
    pub fn public_preset() -> (out: Self)
        ensures
            out@ == (LookupView { mdns: true, dht: true, relay: RelayView::Pinned }),
    {
        LookupOpts { mdns: true, dht: true, relay: RelayChoice::Pinned }
    }

    /// Whether nothing reaches off this machine.
    #[must_use]
    pub fn is_loopback(&self) -> (out: bool)
        ensures
            out == (!self.mdns && !self.dht && self@.relay is Disabled),
    {
        let disabled: bool = match &self.relay {
            RelayChoice::Disabled => true,
            _ => false,
        };
        !self.mdns && !self.dht && disabled
    }

    /// A label of the share's reach.
    #[must_use]
    pub fn network_label(&self) -> (label: &'static str)
        ensures
            label@ == (if !self.mdns && !self.dht && self@.relay is Disabled {
                "private"@
            } else {
                "public"@
            }),
    {
        if self.is_loopback() {
            "private"
        } else {
            "public"
        }
    }

    /// The same settings again.
    pub fn copy(&self) -> (out: Self)
        ensures
            out@ == self@,
    {
        let relay = match &self.relay {
            RelayChoice::Disabled => RelayChoice::Disabled,
            RelayChoice::Pinned => RelayChoice::Pinned,
            RelayChoice::Custom(ladder) => RelayChoice::Custom(copy_ladder(ladder)),
        };
        LookupOpts { mdns: self.mdns, dht: self.dht, relay }
    }

    /// Appends the encoded settings. A custom ladder has to be within its bounds;
    /// an empty one does not decode.
    pub fn encode_into(&self, buf: &mut Vec<u8>)
        requires
            self@.relay matches RelayView::Custom(ladder) ==> {
                &&& ladder.len() <= MAX_RELAY_LADDER
                &&& forall|i: int|
                    0 <= i < ladder.len() ==> encode_utf8(#[trigger] ladder[i]).len()
                        <= MAX_RELAY_URL_BYTES
            },
        ensures
            final(buf)@ == old(buf)@ + lookup_bytes(self@),
    {
        let mut flags: u8 = 0;
        if self.mdns {
            flags = flags + 1;
        }
        if self.dht {
            flags = flags + 2;
        }
        match &self.relay {
            RelayChoice::Disabled => {},
            RelayChoice::Pinned => {
                flags = flags + 4;
            },
            RelayChoice::Custom(_) => {
                flags = flags + 12;
            },
        }
        assert(flags == lookup_flags(self@));
        buf.push(flags);
        match &self.relay {
            RelayChoice::Custom(ladder) => {
                let ghost all = url_views(ladder@);
                buf.push(ladder.len() as u8);
                let ghost prefix = buf@;
                assert(all.take(0) =~= Seq::empty());
                assert(prefix + Seq::<u8>::empty() =~= prefix);
                let mut i: usize = 0;
                while i < ladder.len()
                    invariant
                        0 <= i <= ladder@.len(),
                        all == url_views(ladder@),
                        forall|k: int|
                            0 <= k < all.len() ==> encode_utf8(#[trigger] all[k]).len()
                                <= MAX_RELAY_URL_BYTES,
                        buf@ == prefix + bytes_of(all.take(i as int), put_url()),
                    decreases ladder@.len() - i,
                {
                    assert(encode_utf8(all[i as int]).len() <= MAX_RELAY_URL_BYTES);
                    put_text16(buf, ladder[i].as_str());
                    proof {
                        lemma_bytes_of_push(all.take(i as int), all[i as int], put_url());
                        assert(all.take(i as int + 1) =~= all.take(i as int).push(all[i as int]));
                        assert(buf@ =~= prefix + bytes_of(all.take(i as int + 1), put_url()));
                    }
                    i += 1;
                }
                assert(all.take(i as int) =~= all);
                assert(buf@ =~= old(buf)@ + lookup_bytes(self@));
            },
            _ => {
                assert(buf@ =~= old(buf)@ + lookup_bytes(self@));
            },
        }
    }

    /// Reads the settings at `pos`, and moves `pos` behind them.
    ///
    /// # Errors
    /// The bytes are cut short, the ladder is empty or above its bounds, or a URL
    /// does not parse.
    pub fn decode_from(bytes: &[u8], pos: &mut usize) -> (out: Result<Self, WireError>)
        ensures
            *old(pos) > bytes@.len() ==> out == Err::<Self, WireError>(WireError::Truncated)
                && *final(pos) == *old(pos),
            *old(pos) <= bytes@.len() ==> {
                &&& *old(pos) <= *final(pos) <= bytes@.len()
                &&& match parse_lookups(bytes@.skip(*old(pos) as int)) {
                    Err(e) => out == Err::<Self, WireError>(e),
                    Ok((v, rest)) => out is Ok && out->Ok_0@ == v && bytes@.skip(*final(pos) as int)
                        == rest && *final(pos) == bytes@.len() - rest.len(),
                }
            },
    {
        if *pos > bytes.len() {
            return Err(WireError::Truncated);
        }
        let behind = slice_subrange(bytes, *pos, bytes.len());
        assert(behind@ =~= bytes@.skip(*pos as int));
        let mut cursor = Cursor::new(behind);
        let out = take_lookups(&mut cursor);
        let left: usize = cursor.remaining();
        proof {
            cursor.lemma_rest();
            assert(bytes@.skip(bytes@.len() - left) =~= cursor.rest());
        }
        *pos = bytes.len() - left;
        out
    }
}

fn copy_ladder(ladder: &Vec<RelayUrl>) -> (out: Vec<RelayUrl>)
    ensures
        url_views(out@) == url_views(ladder@),
{
    let mut out: Vec<RelayUrl> = Vec::new();
    let mut i: usize = 0;
    while i < ladder.len()
        invariant
            0 <= i <= ladder@.len(),
            out@.len() == i,
            forall|k: int| 0 <= k < i ==> (#[trigger] out@[k])@ == ladder@[k]@,
        decreases ladder@.len() - i,
    {
        out.push(ladder[i].copy());
        i += 1;
    }
    assert(url_views(out@) =~= url_views(ladder@));
    out
}

fn take_url(cursor: &mut Cursor) -> (out: Result<RelayUrl, WireError>)
    requires
        old(cursor).wf(),
    ensures
        final(cursor).wf(),
        final(cursor).rest().len() <= old(cursor).rest().len(),
        final(cursor).tail_of(*old(cursor)),
        match parse_url(old(cursor).rest()) {
            Err(e) => out == Err::<RelayUrl, WireError>(e),
            Ok((v, rest)) => out is Ok && out->Ok_0@ == v && final(cursor).rest() == rest,
        },
{
    let len: u16 = match cursor.take_u16() {
        Err(e) => return Err(e),
        Ok(v) => v,
    };
    if len as usize > MAX_RELAY_URL_BYTES {
        return Err(WireError::OverCap);
    }
    let raw = match cursor.take(len as usize) {
        Err(e) => return Err(e),
        Ok(v) => v,
    };
    let text = match utf8_text(slice_to_vec(raw)) {
        Some(t) => t,
        None => return Err(WireError::NotUtf8),
    };
    RelayUrl::parse(text.as_str())
}

pub(crate) fn take_lookups(cursor: &mut Cursor) -> (out: Result<LookupOpts, WireError>)
    requires
        old(cursor).wf(),
    ensures
        final(cursor).wf(),
        final(cursor).rest().len() <= old(cursor).rest().len(),
        final(cursor).tail_of(*old(cursor)),
        match parse_lookups(old(cursor).rest()) {
            Err(e) => out == Err::<LookupOpts, WireError>(e),
            Ok((v, rest)) => out is Ok && out->Ok_0@ == v && final(cursor).rest() == rest,
        },
{
    let flags: u8 = match cursor.take_u8() {
        Err(e) => return Err(e),
        Ok(v) => v,
    };
    let mdns: bool = flags % 2 == 1;
    let dht: bool = (flags / 2) % 2 == 1;
    let enabled: bool = (flags / 4) % 2 == 1;
    let custom: bool = (flags / 8) % 2 == 1;
    if custom && !enabled {
        return Err(WireError::RelayNotEnabled);
    }
    if !enabled {
        return Ok(LookupOpts { mdns, dht, relay: RelayChoice::Disabled });
    }
    if !custom {
        return Ok(LookupOpts { mdns, dht, relay: RelayChoice::Pinned });
    }
    let count: u8 = match cursor.take_u8() {
        Err(e) => return Err(e),
        Ok(v) => v,
    };
    if count == 0 {
        return Err(WireError::Empty);
    }
    if count as usize > MAX_RELAY_LADDER {
        return Err(WireError::OverCap);
    }
    let ghost list = cursor.rest();
    let mut ladder: Vec<RelayUrl> = Vec::new();
    proof {
        lemma_prepend_nothing(parse_many(list, count as nat, get_url()));
        assert(url_views(ladder@) =~= Seq::empty());
    }
    let mut i: u8 = 0;
    while i < count
        invariant
            0 <= i <= count,
            cursor.wf(),
            cursor.rest().len() <= old(cursor).rest().len(),
            cursor.tail_of(*old(cursor)),
            parse_lookups(old(cursor).rest()) == (match parse_many(
                list,
                count as nat,
                get_url(),
            ) {
                Err(e) => Err(e),
                Ok((ladder, s2)) => Ok(
                    (LookupView { mdns, dht, relay: RelayView::Custom(ladder) }, s2),
                ),
            }),
            parse_many(list, count as nat, get_url()) == prepend(
                url_views(ladder@),
                parse_many(cursor.rest(), (count - i) as nat, get_url()),
            ),
        decreases count - i,
    {
        proof {
            lemma_parse_step(url_views(ladder@), cursor.rest(), (count - i) as nat, get_url());
        }
        let url = match take_url(cursor) {
            Err(e) => return Err(e),
            Ok(v) => v,
        };
        let ghost before = url_views(ladder@);
        ladder.push(url);
        assert(url_views(ladder@) =~= before.push(url@));
        i += 1;
    }
    assert(url_views(ladder@) + Seq::<Seq<char>>::empty() =~= url_views(ladder@));
    Ok(LookupOpts { mdns, dht, relay: RelayChoice::Custom(ladder) })
}

/// Reads the number at `pos`, and moves `pos` behind it.
///
/// # Errors
/// Fewer than two bytes remain; `pos` then stays.
pub fn read_u16(bytes: &[u8], pos: &mut usize) -> (out: Result<u16, WireError>)
    ensures
        if *old(pos) + 2 <= bytes@.len() {
            &&& out == Ok::<u16, WireError>(u16_of(bytes@.skip(*old(pos) as int)))
            &&& *final(pos) == *old(pos) + 2
        } else {
            &&& out == Err::<u16, WireError>(WireError::Truncated)
            &&& *final(pos) == *old(pos)
        },
{
    let at: usize = *pos;
    if at > bytes.len() || bytes.len() - at < 2 {
        return Err(WireError::Truncated);
    }
    let behind = slice_subrange(bytes, at, bytes.len());
    assert(behind@ =~= bytes@.skip(at as int));
    *pos = at + 2;
    Ok(get_u16(behind))
}

/// The flag byte adds one for mDNS, two for the DHT, four for a relay and eight more
/// for a ladder of its own, and is read back by the same bits.
pub proof fn law_lookup_flags_are_bits(v: LookupView, s: Seq<u8>)
    ensures
        lookup_bytes(v)[0] == (if v.mdns {
            1int
        } else {
            0
        }) + (if v.dht {
            2int
        } else {
            0
        }) + (if v.relay is Disabled {
            0int
        } else {
            4
        }) + (if v.relay is Custom {
            8int
        } else {
            0
        }),
        !(v.relay is Custom) ==> lookup_bytes(v).len() == 1,
        v.relay matches RelayView::Custom(ladder) ==> lookup_bytes(v).len() >= 2 && (ladder.len()
            <= 255 ==> lookup_bytes(v)[1] == ladder.len()),
        s.len() == 0 ==> parse_lookups(s) is Err,
        parse_lookups(s) matches Ok((got, rest)) ==> {
            &&& got.mdns <==> s[0] % 2 == 1
            &&& got.dht <==> (s[0] / 2) % 2 == 1
            &&& got.relay is Disabled <==> (s[0] / 4) % 2 == 0
            &&& got.relay is Custom <==> (s[0] / 8) % 2 == 1
        },
{
}

/// A ladder announced without a relay, an empty one, and one of more than sixteen
/// are each refused; settings without a ladder are one byte and always taken.
pub proof fn law_a_ladder_has_its_bounds(s: Seq<u8>)
    requires
        s.len() > 0,
    ensures
        (s[0] / 8) % 2 == 1 && (s[0] / 4) % 2 == 0 ==> parse_lookups(s) == Err::<
            (LookupView, Seq<u8>),
            WireError,
        >(WireError::RelayNotEnabled),
        (s[0] / 8) % 2 == 0 ==> (parse_lookups(s) matches Ok((_, rest)) && rest == s.skip(1)),
        (s[0] / 8) % 2 == 1 && (s[0] / 4) % 2 == 1 && s.len() == 1 ==> parse_lookups(s) is Err,
        (s[0] / 8) % 2 == 1 && (s[0] / 4) % 2 == 1 && s.len() > 1 && s[1] == 0 ==> parse_lookups(s)
            == Err::<(LookupView, Seq<u8>), WireError>(WireError::Empty),
        (s[0] / 8) % 2 == 1 && (s[0] / 4) % 2 == 1 && s.len() > 1 && s[1] > 16 ==> parse_lookups(s)
            == Err::<(LookupView, Seq<u8>), WireError>(WireError::OverCap),
{
}

/// A relay of a ladder is its length in two bytes, at most 512, and its text, which
/// has to be a relay URL.
pub proof fn law_a_relay_is_read_from_its_text(s: Seq<u8>)
    requires
        s.len() >= 2,
    ensures
        ({
            let len = s[0] + 256 * s[1];
            let raw = s.subrange(2, 2 + len);
            &&& len > 512 ==> parse_url(s) == Err::<(Seq<char>, Seq<u8>), WireError>(
                WireError::OverCap,
            )
            &&& len <= 512 && s.len() < 2 + len ==> parse_url(s) == Err::<
                (Seq<char>, Seq<u8>),
                WireError,
            >(WireError::Truncated)
            &&& len <= 512 && s.len() >= 2 + len && !valid_utf8(raw) ==> parse_url(s) == Err::<
                (Seq<char>, Seq<u8>),
                WireError,
            >(WireError::NotUtf8)
            &&& len <= 512 && s.len() >= 2 + len && valid_utf8(raw) ==> parse_url(s) == (
            match relay_url_text(decode_utf8(raw)) {
                Some(url) => Ok::<(Seq<char>, Seq<u8>), WireError>((url, s.skip(2 + len))),
                None => Err(WireError::BadRelayUrl),
            })
        }),
{
    let len = s[0] + 256 * s[1];
    if s.len() >= 2 + len {
        assert(s.skip(2).take(len) =~= s.subrange(2, 2 + len));
        assert(s.skip(2).skip(len) =~= s.skip(2 + len));
    }
}

} // verus!
