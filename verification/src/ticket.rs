//! The mount ticket: how to reach a share, and what opens it.
//!
//! The payload is `secret(32) ‖ kind(1) ‖ lookups ‖ addr_len(u16) ‖ addr_json`,
//! and for a ticket with flags `flags(1) ‖ mesh_len(u16) ‖ mesh_id ‖ author(32)?`
//! behind it. Every field says where it ends, so a field can be appended.
use crate::codec::{
    get_array32, lemma_concat_assoc, lemma_cut, lemma_u16_le, parse_bytes, parse_u16,
    parse_u8, put_bytes, put_text16, put_u16, text16, u16_le, u16_of, utf8_text, Cursor,
};
use crate::error::WireError;
use crate::lookup::{
    ladder_normal, law_lookups_round_trip, lookup_bytes, lookups_fit, parse_lookups, take_lookups,
    LookupOpts, LookupView, RelayView, MAX_RELAY_LADDER, MAX_RELAY_URL_BYTES,
};
use crate::text::opt_text;
use vstd::prelude::*;
use vstd::slice::{slice_subrange, slice_to_vec};
use vstd::utf8::{decode_utf8, encode_utf8, encode_utf8_decode_utf8, encode_utf8_valid_utf8, valid_utf8};

verus! {

/// An ordinary share.
pub const TICKET_KIND_SHARE: u8 = 0;

/// A bench over `WebRTC`.
pub const TICKET_KIND_BENCH_WEBRTC: u8 = 1;

/// A bench over the relay.
pub const TICKET_KIND_BENCH_RELAY: u8 = 2;

/// A bench over plain QUIC.
pub const TICKET_KIND_BENCH_QUIC: u8 = 3;

/// Flag bit: the share wants a password.
pub const TICKET_FLAG_PASSWORD: u8 = 1;

/// Flag bit: the share's manifests are signed.
pub const TICKET_FLAG_SIGNED: u8 = 2;

/// Whether bytes are one JSON value.
pub uninterp spec fn json_parses(bytes: Seq<u8>) -> bool;

/// `serde_json::from_slice`: whether bytes are one JSON value is a function of
/// the bytes.
#[verifier::external_body]
fn is_json(bytes: &[u8]) -> (ok: bool)
    ensures
        ok == json_parses(bytes@),
{
    serde_json::from_slice::<serde_json::Value>(bytes).is_ok()
}

/// A decoded mount ticket.
#[derive(Debug, Clone, PartialEq, Eq)]
pub struct MountTicket {
    /// The producer's address, as JSON text.
    pub addr: Vec<u8>,
    pub secret: [u8; 32],
    pub lookups: LookupOpts,
    pub kind: u8,
    /// Zero for an ordinary share, and zero is not written.
    pub flags: u8,
    /// The mesh a protected share's peers meet on. Only such a share carries it.
    pub mesh_id: Option<String>,
    /// The creator's authorship key, on a signed share.
    pub author: Option<[u8; 32]>,
}

pub struct TicketView {
    pub addr: Seq<u8>,
    pub secret: Seq<u8>,
    pub lookups: LookupView,
    pub kind: u8,
    pub flags: u8,
    pub mesh_id: Option<Seq<char>>,
    pub author: Option<Seq<u8>>,
}

pub open spec fn key_bytes(key: Option<[u8; 32]>) -> Option<Seq<u8>> {
    match key {
        Some(k) => Some(k@),
        None => None,
    }
}

impl View for MountTicket {
    type V = TicketView;

    open spec fn view(&self) -> TicketView {
        TicketView {
            addr: self.addr@,
            secret: self.secret@,
            lookups: self.lookups@,
            kind: self.kind,
            flags: self.flags,
            mesh_id: opt_text(self.mesh_id),
            author: key_bytes(self.author),
        }
    }
}

pub open spec fn has_password(flags: u8) -> bool {
    flags % 2 == 1
}

pub open spec fn has_author(flags: u8) -> bool {
    (flags / 2) % 2 == 1
}

/// The text of an optional mesh id; empty for none.
pub open spec fn mesh_text(mesh_id: Option<Seq<char>>) -> Seq<char> {
    match mesh_id {
        Some(t) => t,
        None => Seq::empty(),
    }
}

/// The mesh id a ticket carries: that of a protected share, and an empty text
/// for any other.
pub open spec fn carried_mesh(v: TicketView) -> Seq<char> {
    if has_password(v.flags) {
        mesh_text(v.mesh_id)
    } else {
        Seq::empty()
    }
}

/// What stands in front of the flags.
pub open spec fn ticket_head(v: TicketView) -> Seq<u8> {
    v.secret + (seq![v.kind] + (lookup_bytes(v.lookups) + (u16_le(v.addr.len() as u16) + v.addr)))
}

/// The flags and what they announce; nothing for a ticket without flags.
pub open spec fn ticket_tail(v: TicketView) -> Seq<u8> {
    if v.flags == 0 {
        Seq::empty()
    } else {
        seq![v.flags] + (text16(carried_mesh(v)) + (match v.author {
            Some(key) => key,
            None => Seq::empty(),
        }))
    }
}

pub open spec fn ticket_bytes(v: TicketView) -> Seq<u8> {
    ticket_head(v) + ticket_tail(v)
}

/// Whether every length fits its field.
pub open spec fn ticket_fits(v: TicketView) -> bool {
    &&& v.addr.len() <= u16::MAX
    &&& encode_utf8(carried_mesh(v)).len() <= u16::MAX
    &&& v.lookups.relay matches RelayView::Custom(ladder) ==> {
        &&& ladder.len() <= MAX_RELAY_LADDER
        &&& forall|i: int|
            0 <= i < ladder.len() ==> encode_utf8(#[trigger] ladder[i]).len()
                <= MAX_RELAY_URL_BYTES
    }
}

/// The mesh id behind the flags: none where the bytes stop before it or it is
/// empty.
pub open spec fn mesh_of(s: Seq<u8>) -> Result<Option<Seq<char>>, WireError> {
    if s.len() < 2 || u16_of(s) == 0 {
        Ok(None)
    } else if s.len() < 2 + u16_of(s) {
        Err(WireError::Truncated)
    } else if !valid_utf8(s.subrange(2, 2 + u16_of(s) as int)) {
        Err(WireError::NotUtf8)
    } else {
        Ok(Some(decode_utf8(s.subrange(2, 2 + u16_of(s) as int))))
    }
}

/// The authorship key behind the mesh id: none where the bytes stop before it.
pub open spec fn author_of(s: Seq<u8>) -> Option<Seq<u8>> {
    let at: int = 2 + (if s.len() < 2 {
        0
    } else {
        u16_of(s) as int
    });
    if s.len() >= at + 32 {
        Some(s.subrange(at, at + 32))
    } else {
        None
    }
}

/// What a payload says. Bytes behind the last field are ignored.
pub open spec fn ticket_of(payload: Seq<u8>) -> Result<TicketView, WireError> {
    match parse_bytes(payload, 32) {
        Err(e) => Err(e),
        Ok((secret, s1)) => match parse_u8(s1) {
            Err(e) => Err(e),
            Ok((kind, s2)) => match parse_lookups(s2) {
                Err(e) => Err(e),
                Ok((lookups, s3)) => match parse_u16(s3) {
                    Err(e) => Err(e),
                    Ok((addr_len, s4)) => match parse_bytes(s4, addr_len as nat) {
                        Err(e) => Err(e),
                        Ok((addr, s5)) => ticket_rest(secret, kind, lookups, addr, s5),
                    },
                },
            },
        },
    }
}

pub open spec fn ticket_rest(
    secret: Seq<u8>,
    kind: u8,
    lookups: LookupView,
    addr: Seq<u8>,
    s: Seq<u8>,
) -> Result<TicketView, WireError> {
    let flags: u8 = if s.len() == 0 {
        0
    } else {
        s[0]
    };
    let behind = s.skip(1);
    let mesh = if has_password(flags) {
        mesh_of(behind)
    } else {
        Ok(None)
    };
    match mesh {
        Err(e) => Err(e),
        Ok(mesh_id) => if !json_parses(addr) {
            Err(WireError::BadAddress)
        } else {
            Ok(
                TicketView {
                    addr,
                    secret,
                    lookups,
                    kind,
                    flags,
                    mesh_id,
                    author: if has_author(flags) {
                        author_of(behind)
                    } else {
                        None
                    },
                },
            )
        },
    }
}

fn read_mesh_id(s: &[u8]) -> (out: Result<Option<String>, WireError>)
    ensures
        match mesh_of(s@) {
            Err(e) => out == Err::<Option<String>, WireError>(e),
            Ok(mesh) => out is Ok && opt_text(out->Ok_0) == mesh,
        },
{
    if s.len() < 2 {
        return Ok(None);
    }
    let len: u16 = crate::codec::get_u16(s);
    if len == 0 {
        return Ok(None);
    }
    if s.len() - 2 < len as usize {
        return Err(WireError::Truncated);
    }
    let raw = slice_subrange(s, 2, 2 + len as usize);
    match utf8_text(slice_to_vec(raw)) {
        Some(text) => Ok(Some(text)),
        None => Err(WireError::NotUtf8),
    }
}

fn read_author(s: &[u8]) -> (out: Option<[u8; 32]>)
    ensures
        key_bytes(out) == author_of(s@),
{
    let mesh_len: usize = if s.len() < 2 {
        0
    } else {
        crate::codec::get_u16(s) as usize
    };
    if s.len() < 34 || s.len() - 34 < mesh_len {
        return None;
    }
    let raw = slice_subrange(s, 2 + mesh_len, 2 + mesh_len + 32);
    assert(raw@.take(32) =~= raw@);
    Some(get_array32(raw))
}

impl MountTicket {
    /// Whether redeeming this ticket needs a password.
    #[must_use]
    pub fn password_protected(&self) -> (protected: bool)
        ensures
            protected == has_password(self.flags),
    {
        self.flags % 2 == 1
    }

    /// Encodes the payload. Its lengths have to fit their fields.
    #[must_use]
    pub fn encode(&self) -> (out: Vec<u8>)
        requires
            ticket_fits(self@),
        ensures
            out@ == ticket_bytes(self@),
    {
        let mut out: Vec<u8> = Vec::new();
        put_bytes(&mut out, self.secret.as_slice());
        out.push(self.kind);
        self.lookups.encode_into(&mut out);
        put_u16(&mut out, self.addr.len() as u16);
        put_bytes(&mut out, self.addr.as_slice());
        assert(out@ =~= ticket_head(self@));
        if self.flags != 0 {
            out.push(self.flags);
            proof {
                assert(encode_utf8(Seq::empty()) =~= Seq::<u8>::empty());
                assert(text16(Seq::empty()) =~= u16_le(0));
            }
            match &self.mesh_id {
                Some(text) if self.password_protected() => put_text16(&mut out, text.as_str()),
                _ => put_u16(&mut out, 0),
            }
            match &self.author {
                Some(key) => put_bytes(&mut out, key.as_slice()),
                None => {},
            }
        }
        assert(out@ =~= ticket_bytes(self@));
        out
    }

    /// Decodes a payload. The address is read as JSON and kept as text; whether it
    /// names an endpoint is settled by whoever dials it, so JSON that names none
    /// still decodes.
    ///
    /// # Errors
    /// The payload is cut short, its lookups or its mesh id are malformed, or the
    /// address is not JSON.
    pub fn decode(payload: &[u8]) -> (out: Result<Self, WireError>)
        ensures
            match ticket_of(payload@) {
                Err(e) => out == Err::<Self, WireError>(e),
                Ok(v) => out is Ok && out->Ok_0@ == v,
            },
    {
        let mut cursor = Cursor::new(payload);
        let secret: [u8; 32] = match cursor.take(32) {
            Err(e) => return Err(e),
            Ok(raw) => {
                assert(raw@.take(32) =~= raw@);
                get_array32(raw)
            },
        };
        let kind: u8 = match cursor.take_u8() {
            Err(e) => return Err(e),
            Ok(v) => v,
        };
        let lookups = match take_lookups(&mut cursor) {
            Err(e) => return Err(e),
            Ok(v) => v,
        };
        let addr_len: u16 = match cursor.take_u16() {
            Err(e) => return Err(e),
            Ok(v) => v,
        };
        let addr = match cursor.take(addr_len as usize) {
            Err(e) => return Err(e),
            Ok(v) => v,
        };
        let ghost s5 = cursor.rest();
        let left: usize = cursor.remaining();
        let flags: u8 = match cursor.take_u8() {
            Err(_) => 0,
            Ok(v) => v,
        };
        let mut mesh_id: Option<String> = None;
        let mut author: Option<[u8; 32]> = None;
        if flags != 0 {
            let n: usize = cursor.remaining();
            let behind = match cursor.take(n) {
                Err(e) => return Err(e),
                Ok(v) => v,
            };
            assert(behind@ =~= s5.skip(1));
            if flags % 2 == 1 {
                mesh_id = match read_mesh_id(behind) {
                    Err(e) => return Err(e),
                    Ok(v) => v,
                };
            }
            if (flags / 2) % 2 == 1 {
                author = read_author(behind);
            }
        }
        if !is_json(addr) {
            return Err(WireError::BadAddress);
        }
        Ok(
            MountTicket {
                addr: slice_to_vec(addr),
                secret,
                lookups,
                kind,
                flags,
                mesh_id,
                author,
            },
        )
    }
}

/// Whether the optional fields of a ticket agree with its flags.
pub open spec fn ticket_consistent(v: TicketView) -> bool {
    &&& v.mesh_id is Some ==> has_password(v.flags)
    &&& v.mesh_id matches Some(t) ==> t.len() > 0
    &&& v.author is Some <==> has_author(v.flags)
    &&& v.author matches Some(key) ==> key.len() == 32
}

proof fn lemma_mesh_parses(text: Seq<char>, rest: Seq<u8>)
    requires
        encode_utf8(text).len() <= u16::MAX,
    ensures
        (text16(text) + rest).len() >= 2,
        u16_of(text16(text) + rest) == encode_utf8(text).len(),
        mesh_of(text16(text) + rest) == Ok::<Option<Seq<char>>, WireError>(
            if text.len() == 0 {
                None
            } else {
                Some(text)
            },
        ),
{
    let raw = encode_utf8(text);
    let len = raw.len() as u16;
    let s = text16(text) + rest;
    lemma_concat_assoc(u16_le(len), raw, rest);
    lemma_u16_le(len, raw + rest);
    encode_utf8_valid_utf8(text);
    encode_utf8_decode_utf8(text);
    if text.len() == 0 {
        assert(text =~= Seq::empty());
        assert(raw =~= Seq::<u8>::empty());
    } else {
        encode_utf8_decode_utf8(Seq::empty());
        assert(encode_utf8(Seq::empty()) =~= Seq::<u8>::empty());
        if raw.len() == 0 {
            assert(raw =~= Seq::<u8>::empty());
        }
        assert(s.subrange(2, 2 + len as int) =~= raw);
    }
}

/// Reading a ticket's head leaves what stands behind it.
proof fn lemma_head_parses(v: TicketView, end: Seq<u8>)
    requires
        ticket_fits(v),
        lookups_fit(v.lookups),
        v.secret.len() == 32,
    ensures
        ladder_normal(v.lookups) ==> ticket_of(ticket_head(v) + end) == ticket_rest(
            v.secret,
            v.kind,
            v.lookups,
            v.addr,
            end,
        ),
{
    if ladder_normal(v.lookups) {
        let len = v.addr.len() as u16;
        let r4 = v.addr;
        let r3 = u16_le(len) + r4;
        let r2 = lookup_bytes(v.lookups) + r3;
        let r1 = seq![v.kind] + r2;
        let s4 = r4 + end;
        let s3 = u16_le(len) + s4;
        let s2 = lookup_bytes(v.lookups) + s3;
        let s1 = seq![v.kind] + s2;
        lemma_concat_assoc(v.secret, r1, end);
        lemma_concat_assoc(seq![v.kind], r2, end);
        lemma_concat_assoc(lookup_bytes(v.lookups), r3, end);
        lemma_concat_assoc(u16_le(len), r4, end);
        assert(ticket_head(v) + end == v.secret + s1);
        lemma_cut(v.secret, s1);
        lemma_cut(seq![v.kind], s2);
        law_lookups_round_trip(v.lookups, s3);
        lemma_u16_le(len, s4);
        lemma_cut(r4, end);
    }
}

/// A ticket reads back as what was encoded; with flags, also with bytes behind
/// its last field.
pub proof fn law_ticket_round_trip(v: TicketView, tail: Seq<u8>)
    requires
        ticket_fits(v),
        lookups_fit(v.lookups),
        ticket_consistent(v),
        v.secret.len() == 32,
        v.flags == 0 ==> tail.len() == 0,
    ensures
        ladder_normal(v.lookups) && json_parses(v.addr) ==> ticket_of(ticket_bytes(v) + tail)
            == Ok::<TicketView, WireError>(v),
{
    lemma_concat_assoc(ticket_head(v), ticket_tail(v), tail);
    lemma_head_parses(v, ticket_tail(v) + tail);
    lemma_ticket_rest(v, tail);
}

proof fn lemma_ticket_rest(v: TicketView, tail: Seq<u8>)
    requires
        ticket_fits(v),
        ticket_consistent(v),
        v.flags == 0 ==> tail.len() == 0,
    ensures
        json_parses(v.addr) ==> ticket_rest(
            v.secret,
            v.kind,
            v.lookups,
            v.addr,
            ticket_tail(v) + tail,
        ) == Ok::<TicketView, WireError>(v),
{
    let end = ticket_tail(v) + tail;
    if v.flags == 0 {
        assert(end.len() == 0);
    } else {
        let key = match v.author {
            Some(k) => k,
            None => Seq::empty(),
        };
        let text = carried_mesh(v);
        assert(encode_utf8(Seq::empty()) =~= Seq::<u8>::empty());
        let behind = text16(text) + (key + tail);
        assert(end[0] == v.flags);
        assert(end.skip(1) =~= behind);
        lemma_mesh_parses(text, key + tail);
        if has_author(v.flags) {
            let at = 2 + encode_utf8(text).len() as int;
            assert(behind.subrange(at, at + 32) =~= key);
        }
    }
}

/// An ordinary share's ticket has no flag byte: its bytes end with the address.
pub proof fn law_ordinary_ticket_has_no_flags(v: TicketView)
    requires
        v.flags == 0,
    ensures
        ticket_bytes(v) == ticket_head(v),
{
    assert(ticket_bytes(v) =~= ticket_head(v));
}

/// A flagged ticket that stops behind its flag byte still decodes, without a
/// mesh id and without a key: a field its producer did not know is absent, not
/// malformed.
pub proof fn law_short_flagged_ticket_decodes(v: TicketView, flags: u8)
    requires
        ticket_fits(v),
        lookups_fit(v.lookups),
        v.secret.len() == 32,
        flags != 0,
    ensures
        ladder_normal(v.lookups) && json_parses(v.addr) ==> ticket_of(
            ticket_head(v) + seq![flags],
        ) == Ok::<TicketView, WireError>(TicketView { flags, mesh_id: None, author: None, ..v }),
{
    lemma_head_parses(v, seq![flags]);
    assert(seq![flags].skip(1).len() == 0);
}

/// A ticket is its secret, its kind, how its peers find each other, and its address
/// behind the length of that; flags and what they announce follow where there are
/// any.
pub proof fn law_a_ticket_is_laid_out_in_order(v: TicketView)
    requires
        v.secret.len() == 32,
        v.addr.len() <= 65_535,
    ensures
        ({
            let bytes = ticket_bytes(v);
            let at = 33 + lookup_bytes(v.lookups).len() as int;
            let end = at + 2 + v.addr.len();
            &&& bytes.subrange(0, 32) == v.secret
            &&& bytes[32] == v.kind
            &&& bytes.subrange(33, at) == lookup_bytes(v.lookups)
            &&& bytes[at] + 256 * bytes[at + 1] == v.addr.len()
            &&& bytes.subrange(at + 2, end) == v.addr
            &&& v.flags == 0 ==> bytes.len() == end
            &&& v.flags != 0 ==> bytes.len() >= end + 3 && bytes[end] == v.flags
        }),
        v.flags % 2 == 0 ==> carried_mesh(v).len() == 0,
        v.flags % 2 == 1 ==> carried_mesh(v) == (match v.mesh_id {
            Some(text) => text,
            None => Seq::empty(),
        }),
{
    let bytes = ticket_bytes(v);
    let at = 33 + lookup_bytes(v.lookups).len() as int;
    let end = at + 2 + v.addr.len();
    assert(bytes.subrange(0, 32) =~= v.secret);
    assert(bytes.subrange(33, at) =~= lookup_bytes(v.lookups));
    assert(bytes[at] == (v.addr.len() as u16 % 256) as u8);
    assert(bytes[at + 1] == (v.addr.len() as u16 / 256) as u8);
    assert(bytes.subrange(at + 2, end) =~= v.addr);
}

/// Behind the flags of a protected share stands the mesh it meets on, behind that
/// the author's key of a signed one. Where the bytes stop before either there is
/// none.
pub proof fn law_flags_announce_what_follows(
    secret: Seq<u8>,
    kind: u8,
    lookups: LookupView,
    addr: Seq<u8>,
    s: Seq<u8>,
)
    requires
        json_parses(addr),
    ensures
        ({
            let out = ticket_rest(secret, kind, lookups, addr, s);
            let behind = s.skip(1);
            let len: int = if behind.len() < 2 {
                0
            } else {
                behind[0] + 256 * behind[1]
            };
            &&& s.len() == 0 ==> (out matches Ok(v) && v.flags == 0 && v.mesh_id is None
                && v.author is None)
            &&& s.len() > 0 && s[0] % 2 == 0 ==> (out matches Ok(v) && v.flags == s[0]
                && v.mesh_id is None)
            &&& s.len() > 0 && s[0] % 2 == 1 && len == 0 ==> (out matches Ok(v) && v.flags == s[0]
                && v.mesh_id is None)
            &&& s.len() > 0 && s[0] % 2 == 1 && len > 0 && behind.len() < 2 + len ==> out == Err::<
                TicketView,
                WireError,
            >(WireError::Truncated)
            &&& s.len() > 0 && s[0] % 2 == 1 && len > 0 && behind.len() >= 2 + len && valid_utf8(
                behind.subrange(2, 2 + len),
            ) ==> (out matches Ok(v) && v.flags == s[0] && v.mesh_id == Some(
                decode_utf8(behind.subrange(2, 2 + len)),
            ))
            &&& s.len() > 0 && s[0] % 2 == 1 && len > 0 && behind.len() >= 2 + len && !valid_utf8(
                behind.subrange(2, 2 + len),
            ) ==> out == Err::<TicketView, WireError>(WireError::NotUtf8)
            &&& out matches Ok(v) ==> {
                &&& v.secret == secret && v.kind == kind && v.lookups == lookups && v.addr == addr
                &&& v.author == (if s.len() > 0 && (s[0] / 2) % 2 == 1 && behind.len() >= 34 + len {
                    Some(behind.subrange(2 + len, 34 + len))
                } else {
                    None
                })
            }
        }),
{
    if s.len() == 0 {
        assert(!has_password(0));
        assert(!has_author(0));
    }
}

/// A ticket whose address is no JSON is refused.
pub proof fn law_an_address_has_to_be_json(v: TicketView)
    requires
        ticket_fits(v),
        lookups_fit(v.lookups),
        v.secret.len() == 32,
        ladder_normal(v.lookups),
        v.flags == 0,
        !json_parses(v.addr),
    ensures
        ticket_of(ticket_bytes(v)) == Err::<TicketView, WireError>(WireError::BadAddress),
{
    lemma_head_parses(v, Seq::empty());
    assert(ticket_bytes(v) =~= ticket_head(v) + Seq::<u8>::empty());
}

} // verus!
