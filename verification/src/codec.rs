//! Payload serialization of the typed messages, and wire framing.
//!
//! The wire format is symmetric in both directions: each message is one
//! frame, a 4-byte little-endian length prefix followed by exactly that many
//! payload bytes. Inside a payload, every field has a fixed order: a string
//! is a 4-byte little-endian byte count followed by its UTF-8 bytes, a
//! boolean is one byte (`0` or `1`), an optional string is one tag byte
//! (`0` absent, `1` present) followed by the string, and an enum variant is
//! one tag byte followed by its fields.

use vstd::prelude::*;
use vstd::bytes::{
    lemma_auto_spec_u32_to_from_le_bytes, spec_u32_to_le_bytes,
    u32_from_le_bytes, u32_to_le_bytes,
};
use vstd::utf8::{encode_utf8, encode_utf8_decode_utf8, encode_utf8_valid_utf8, valid_utf8};
use vstd::slice::{slice_subrange, slice_to_vec};
use crate::messages::{
    ClientEvent, ClientEventView, ClientPacket, ClientPacketView, ServerEvent, ServerEventView,
    ServerPacket, ServerPacketView,
};

verus! {

/// Encoding of one string: 4-byte little-endian byte count, then UTF-8 bytes.
pub open spec fn spec_enc_str(s: Seq<char>) -> Seq<u8> {
    spec_u32_to_le_bytes(encode_utf8(s).len() as u32) + encode_utf8(s)
}

/// The string's UTF-8 byte count fits the 4-byte length field.
pub open spec fn str_fits(s: Seq<char>) -> bool {
    encode_utf8(s).len() <= u32::MAX
}

/// Encoding of one boolean: a single byte, `1` for true and `0` for false.
pub open spec fn spec_enc_bool(b: bool) -> Seq<u8> {
    seq![if b { 1u8 } else { 0u8 }]
}

/// Encoding of an optional string: tag byte `0` for absent, `1` + string for present.
pub open spec fn spec_enc_opt_str(s: Option<Seq<char>>) -> Seq<u8> {
    match s {
        None => seq![0u8],
        Some(n) => seq![1u8] + spec_enc_str(n),
    }
}

pub open spec fn opt_str_fits(s: Option<Seq<char>>) -> bool {
    match s {
        None => true,
        Some(n) => str_fits(n),
    }
}

/// Payload encoding of a `ClientEvent`: variant tag byte, then fields in order.
pub open spec fn spec_enc_client_event(e: ClientEventView) -> Seq<u8> {
    match e {
        ClientEventView::GameStart { map, mode } => seq![0u8] + (spec_enc_str(map)
            + spec_enc_str(mode)),
        ClientEventView::ClientConnecting { name, uid } => seq![1u8] + (spec_enc_str(name)
            + spec_enc_str(uid)),
        ClientEventView::ClientDisconnected { name, uid } => seq![2u8] + (spec_enc_str(name)
            + spec_enc_str(uid)),
        ClientEventView::ClientChat { name, uid, message, is_team } => seq![3u8] + (spec_enc_str(
            name,
        ) + (spec_enc_str(uid) + (spec_enc_str(message) + spec_enc_bool(is_team)))),
    }
}

pub open spec fn client_event_fits(e: ClientEventView) -> bool {
    match e {
        ClientEventView::GameStart { map, mode } => str_fits(map) && str_fits(mode),
        ClientEventView::ClientConnecting { name, uid } => str_fits(name) && str_fits(uid),
        ClientEventView::ClientDisconnected { name, uid } => str_fits(name) && str_fits(uid),
        ClientEventView::ClientChat { name, uid, message, .. } => str_fits(name) && str_fits(uid)
            && str_fits(message),
    }
}

/// Payload encoding of a `ClientPacket`: originating name, then the event.
pub open spec fn spec_enc_client_packet(p: ClientPacketView) -> Seq<u8> {
    spec_enc_str(p.name) + spec_enc_client_event(p.event)
}

pub open spec fn client_packet_fits(p: ClientPacketView) -> bool {
    str_fits(p.name) && client_event_fits(p.event)
}

/// Payload encoding of a `ServerEvent`: variant tag byte, then fields in order.
pub open spec fn spec_enc_server_event(e: ServerEventView) -> Seq<u8> {
    match e {
        ServerEventView::ExecCommand { command } => seq![0u8] + spec_enc_str(command),
    }
}

pub open spec fn server_event_fits(e: ServerEventView) -> bool {
    match e {
        ServerEventView::ExecCommand { command } => str_fits(command),
    }
}

/// Payload encoding of a `ServerPacket`: optional target name, then the event.
pub open spec fn spec_enc_server_packet(p: ServerPacketView) -> Seq<u8> {
    spec_enc_opt_str(p.name) + spec_enc_server_event(p.event)
}

pub open spec fn server_packet_fits(p: ServerPacketView) -> bool {
    opt_str_fits(p.name) && server_event_fits(p.event)
}

/// A complete frame: 4-byte little-endian payload length, then the payload.
pub open spec fn spec_frame(payload: Seq<u8>) -> Seq<u8> {
    spec_u32_to_le_bytes(payload.len() as u32) + payload
}

/// A message type that can cross the wire as one frame payload.
pub trait Message: View + Sized {
    /// Payload bytes of a message on the wire.
    spec fn spec_enc(v: Self::V) -> Seq<u8>;

    /// Every string in the message fits the 4-byte length fields of the format.
    spec fn enc_valid(v: Self::V) -> bool;

    /// Serializes the payload of this message.
    fn encode_payload(&self) -> (r: Vec<u8>)
        requires
            Self::enc_valid(self@),
        ensures
            r@ == Self::spec_enc(self@),
    ;

    /// Decides whether every string in this message fits the length fields.
    fn enc_valid_check(&self) -> (r: bool)
        ensures
            r == Self::enc_valid(self@),
    ;

    /// Parses one payload. Succeeds exactly on the payloads that are the
    /// encoding of a message, and then returns that message.
    fn decode_payload(b: &[u8]) -> (r: Option<Self>)
        ensures
            r matches Some(p) ==> Self::enc_valid(p@) && Self::spec_enc(p@) == b@,
            forall|v: Self::V|
                Self::enc_valid(v) && #[trigger] Self::spec_enc(v) == b@ ==> r is Some && (
                r matches Some(p) ==> p@ == v),
    ;
}

/// Appends the encoding of one string to `out`.
fn enc_str_into(out: &mut Vec<u8>, s: &str)
    requires
        str_fits(s@),
    ensures
        final(out)@ == old(out)@ + spec_enc_str(s@),
{
    let bytes: &[u8] = s.as_bytes();
    let len_bytes: Vec<u8> = u32_to_le_bytes(bytes.len() as u32);
    out.extend_from_slice(len_bytes.as_slice());
    out.extend_from_slice(bytes);
    proof {
        assert(out@ =~= old(out)@ + spec_enc_str(s@));
    }
}

/// Appends the encoding of one boolean to `out`.
fn enc_bool_into(out: &mut Vec<u8>, b: bool)
    ensures
        final(out)@ == old(out)@ + spec_enc_bool(b),
{
    out.push(if b { 1u8 } else { 0u8 });
    proof {
        assert(out@ =~= old(out)@ + spec_enc_bool(b));
    }
}

impl Message for ClientPacket {
    open spec fn spec_enc(v: ClientPacketView) -> Seq<u8> {
        spec_enc_client_packet(v)
    }

    open spec fn enc_valid(v: ClientPacketView) -> bool {
        client_packet_fits(v)
    }

    fn encode_payload(&self) -> (r: Vec<u8>) {
        let mut out: Vec<u8> = Vec::new();
        enc_str_into(&mut out, self.name.as_str());
        enc_client_event_into(&mut out, &self.event);
        proof {
            assert(out@ =~= spec_enc_client_packet(self@));
        }
        out
    }

    fn enc_valid_check(&self) -> (r: bool) {
        str_fits_check(&self.name) && client_event_fits_check(&self.event)
    }

    fn decode_payload(b: &[u8]) -> (r: Option<Self>) {
        dec_client_packet(b)
    }
}

impl Message for ServerPacket {
    open spec fn spec_enc(v: ServerPacketView) -> Seq<u8> {
        spec_enc_server_packet(v)
    }

    open spec fn enc_valid(v: ServerPacketView) -> bool {
        server_packet_fits(v)
    }

    fn encode_payload(&self) -> (r: Vec<u8>) {
        let mut out: Vec<u8> = Vec::new();
        match &self.name {
            None => {
                out.push(0u8);
            },
            Some(n) => {
                out.push(1u8);
                enc_str_into(&mut out, n.as_str());
            },
        }
        match &self.event {
            ServerEvent::ExecCommand { command } => {
                out.push(0u8);
                enc_str_into(&mut out, command.as_str());
            },
        }
        proof {
            assert(out@ =~= spec_enc_server_packet(self@));
        }
        out
    }

    fn enc_valid_check(&self) -> (r: bool) {
        let name_ok = match &self.name {
            None => true,
            Some(n) => str_fits_check(n),
        };
        let event_ok = match &self.event {
            ServerEvent::ExecCommand { command } => str_fits_check(command),
        };
        name_ok && event_ok
    }

    fn decode_payload(b: &[u8]) -> (r: Option<Self>) {
        dec_server_packet(b)
    }
}

/// Appends the encoding of one `ClientEvent` to `out`.
fn enc_client_event_into(out: &mut Vec<u8>, e: &ClientEvent)
    requires
        client_event_fits(e@),
    ensures
        final(out)@ == old(out)@ + spec_enc_client_event(e@),
{
    match e {
        ClientEvent::GameStart { map, mode } => {
            out.push(0u8);
            enc_str_into(out, map.as_str());
            enc_str_into(out, mode.as_str());
        },
        ClientEvent::ClientConnecting { name, uid } => {
            out.push(1u8);
            enc_str_into(out, name.as_str());
            enc_str_into(out, uid.as_str());
        },
        ClientEvent::ClientDisconnected { name, uid } => {
            out.push(2u8);
            enc_str_into(out, name.as_str());
            enc_str_into(out, uid.as_str());
        },
        ClientEvent::ClientChat { name, uid, message, is_team } => {
            out.push(3u8);
            enc_str_into(out, name.as_str());
            enc_str_into(out, uid.as_str());
            enc_str_into(out, message.as_str());
            enc_bool_into(out, *is_team);
        },
    }
    proof {
        assert(out@ =~= old(out)@ + spec_enc_client_event(e@));
    }
}

/// Decides whether the string's UTF-8 byte count fits a 4-byte length field.
fn str_fits_check(s: &String) -> (r: bool)
    ensures
        r == str_fits(s@),
{
    s.as_str().as_bytes().len() <= u32::MAX as usize
}

/// Decides `client_event_fits` for an executable event.
fn client_event_fits_check(e: &ClientEvent) -> (r: bool)
    ensures
        r == client_event_fits(e@),
{
    match e {
        ClientEvent::GameStart { map, mode } => str_fits_check(map) && str_fits_check(mode),
        ClientEvent::ClientConnecting { name, uid } => str_fits_check(name) && str_fits_check(uid),
        ClientEvent::ClientDisconnected { name, uid } => str_fits_check(name) && str_fits_check(
            uid,
        ),
        ClientEvent::ClientChat { name, uid, message, .. } => str_fits_check(name)
            && str_fits_check(uid) && str_fits_check(message),
    }
}

/// Relies on std's `String::from_utf8`: it returns `Ok` exactly for the byte
/// sequences that are valid UTF-8, and then returns the string whose UTF-8
/// encoding is those bytes.
#[verifier::external_body]
fn string_from_utf8(bytes: Vec<u8>) -> (r: Option<String>)
    ensures
        match r {
            Some(s) => encode_utf8(s@) == bytes@,
            None => !valid_utf8(bytes@),
        },
{
    String::from_utf8(bytes).ok()
}

/// Knowing that a range of `b` equals a concatenation, each half equals the
/// matching subrange.
pub proof fn lemma_subrange_split(b: Seq<u8>, i: int, x: Seq<u8>, y: Seq<u8>)
    requires
        0 <= i,
        i + x.len() + y.len() <= b.len(),
        b.subrange(i, i + x.len() + y.len()) == x + y,
    ensures
        b.subrange(i, i + x.len()) == x,
        b.subrange(i + x.len(), i + x.len() + y.len()) == y,
{
    let xy = x + y;
    assert forall|k: int| 0 <= k < x.len() implies b.subrange(i, i + x.len())[k] == x[k] by {
        assert(b.subrange(i, i + x.len() + y.len())[k] == xy[k]);
    }
    assert(b.subrange(i, i + x.len()) =~= x);
    assert forall|k: int| 0 <= k < y.len() implies b.subrange(
        i + x.len(),
        i + x.len() + y.len(),
    )[k] == y[k] by {
        assert(b.subrange(i, i + x.len() + y.len())[x.len() + k] == xy[x.len() + k]);
    }
    assert(b.subrange(i + x.len(), i + x.len() + y.len()) =~= y);
}

/// Adjacent subranges concatenate to the enclosing subrange.
pub proof fn lemma_subrange_join(b: Seq<u8>, i: int, m: int, j: int)
    requires
        0 <= i <= m <= j <= b.len(),
    ensures
        b.subrange(i, j) == b.subrange(i, m) + b.subrange(m, j),
{
    assert(b.subrange(i, j) =~= b.subrange(i, m) + b.subrange(m, j));
}

/// Reads one byte at `i`.
fn dec_u8(b: &[u8], i: usize) -> (r: Option<(u8, usize)>)
    requires
        i <= b@.len(),
    ensures
        r matches Some(p) ==> p.1 == i + 1 && p.1 <= b@.len() && b@[i as int] == p.0,
        r is None ==> b@.len() == i,
{
    if b.len() - i < 1 {
        None
    } else {
        Some((b[i], i + 1))
    }
}

/// Reads a 4-byte little-endian integer at `i`.
fn dec_u32(b: &[u8], i: usize) -> (r: Option<(u32, usize)>)
    requires
        i <= b@.len(),
    ensures
        r matches Some(p) ==> p.1 == i + 4 && p.1 <= b@.len() && spec_u32_to_le_bytes(p.0)
            == b@.subrange(i as int, i + 4),
        r is None ==> b@.len() < i + 4,
{
    proof {
        lemma_auto_spec_u32_to_from_le_bytes();
    }
    if b.len() - i < 4 {
        None
    } else {
        let x = u32_from_le_bytes(slice_subrange(b, i, i + 4));
        Some((x, i + 4))
    }
}

/// Parses one boolean byte at `i`.
fn dec_bool(b: &[u8], i: usize) -> (r: Option<(bool, usize)>)
    requires
        i <= b@.len(),
    ensures
        r matches Some(p) ==> p.1 == i + 1 && p.1 <= b@.len() && b@.subrange(i as int, p.1 as int)
            == spec_enc_bool(p.0),
        forall|v: bool|
            i + 1 <= b@.len() && b@.subrange(i as int, i + 1) == #[trigger] spec_enc_bool(v)
                ==> r is Some && (r matches Some(p) ==> p.0 == v && p.1 == i + 1),
{
    proof {
        assert forall|v: bool| i + 1 <= b@.len() && b@.subrange(i as int, i + 1)
            == #[trigger] spec_enc_bool(v) implies b@[i as int] == (if v {
            1u8
        } else {
            0u8
        }) by {
            assert(b@.subrange(i as int, i + 1)[0] == b@[i as int]);
        }
    }
    match dec_u8(b, i) {
        None => None,
        Some((x, j)) => {
            if x == 0 {
                proof {
                    assert(b@.subrange(i as int, i + 1) =~= spec_enc_bool(false));
                }
                Some((false, j))
            } else if x == 1 {
                proof {
                    assert(b@.subrange(i as int, i + 1) =~= spec_enc_bool(true));
                }
                Some((true, j))
            } else {
                None
            }
        },
    }
}

/// Parses one length-prefixed UTF-8 string at `i`.
fn dec_str(b: &[u8], i: usize) -> (r: Option<(String, usize)>)
    requires
        i <= b@.len(),
    ensures
        r matches Some(p) ==> {
            &&& i <= p.1 <= b@.len()
            &&& str_fits(p.0@)
            &&& p.1 == i + spec_enc_str(p.0@).len()
            &&& b@.subrange(i as int, p.1 as int) == spec_enc_str(p.0@)
        },
        forall|s: Seq<char>|
            str_fits(s) && i + spec_enc_str(s).len() <= b@.len() && b@.subrange(
                i as int,
                i + spec_enc_str(s).len(),
            ) == #[trigger] spec_enc_str(s) ==> r is Some && (r matches Some(p) ==> p.0@ == s
                && p.1 == i + spec_enc_str(s).len()),
{
    proof {
        lemma_auto_spec_u32_to_from_le_bytes();
        // For any candidate string occurring at i, expose its length field and bytes.
        assert forall|s: Seq<char>|
            str_fits(s) && i + spec_enc_str(s).len() <= b@.len() && b@.subrange(
                i as int,
                i + spec_enc_str(s).len(),
            ) == #[trigger] spec_enc_str(s) implies {
            &&& b@.len() >= i + 4
            &&& b@.subrange(i as int, i + 4) == spec_u32_to_le_bytes(encode_utf8(s).len() as u32)
            &&& b@.subrange(i + 4, i + 4 + encode_utf8(s).len()) == encode_utf8(s)
        } by {
            lemma_subrange_split(
                b@,
                i as int,
                spec_u32_to_le_bytes(encode_utf8(s).len() as u32),
                encode_utf8(s),
            );
        }
    }
    match dec_u32(b, i) {
        None => None,
        Some((n, j)) => {
            let n_us = n as usize;
            if b.len() - j < n_us {
                proof {
                    assert forall|s: Seq<char>|
                        str_fits(s) && i + spec_enc_str(s).len() <= b@.len() && b@.subrange(
                            i as int,
                            i + spec_enc_str(s).len(),
                        ) == #[trigger] spec_enc_str(s) implies false by {
                        assert(spec_u32_to_le_bytes(encode_utf8(s).len() as u32)
                            == spec_u32_to_le_bytes(n));
                        assert(encode_utf8(s).len() as u32 == n);
                    }
                }
                None
            } else {
                let end = j + n_us;
                let payload_bytes = slice_to_vec(slice_subrange(b, j, end));
                proof {
                    assert forall|s: Seq<char>|
                        str_fits(s) && i + spec_enc_str(s).len() <= b@.len() && b@.subrange(
                            i as int,
                            i + spec_enc_str(s).len(),
                        ) == #[trigger] spec_enc_str(s) implies encode_utf8(s) == payload_bytes@ by {
                        assert(spec_u32_to_le_bytes(encode_utf8(s).len() as u32)
                            == spec_u32_to_le_bytes(n));
                        assert(encode_utf8(s).len() as u32 == n);
                    }
                }
                match string_from_utf8(payload_bytes) {
                    Some(s) => {
                        proof {
                            assert(encode_utf8(s@).len() == n);
                            assert(spec_enc_str(s@) =~= b@.subrange(i as int, end as int)) by {
                                lemma_subrange_join(b@, i as int, j as int, end as int);
                            }
                            assert forall|s0: Seq<char>|
                                str_fits(s0) && i + spec_enc_str(s0).len() <= b@.len()
                                    && b@.subrange(i as int, i + spec_enc_str(s0).len())
                                    == #[trigger] spec_enc_str(s0) implies s0 == s@ by {
                                assert(encode_utf8(s0) == payload_bytes@);
                                encode_utf8_decode_utf8(s0);
                                encode_utf8_decode_utf8(s@);
                            }
                        }
                        Some((s, end))
                    },
                    None => {
                        proof {
                            assert forall|s0: Seq<char>|
                                str_fits(s0) && i + spec_enc_str(s0).len() <= b@.len()
                                    && b@.subrange(i as int, i + spec_enc_str(s0).len())
                                    == #[trigger] spec_enc_str(s0) implies false by {
                                assert(encode_utf8(s0) == payload_bytes@);
                                encode_utf8_valid_utf8(s0);
                            }
                        }
                        None
                    },
                }
            }
        },
    }
}

/// Parses two consecutive length-prefixed strings at `i`.
fn dec_two_strs(b: &[u8], i: usize) -> (r: Option<(String, String, usize)>)
    requires
        i <= b@.len(),
    ensures
        r matches Some(p) ==> {
            &&& i <= p.2 <= b@.len()
            &&& str_fits(p.0@) && str_fits(p.1@)
            &&& p.2 == i + (spec_enc_str(p.0@) + spec_enc_str(p.1@)).len()
            &&& b@.subrange(i as int, p.2 as int) == spec_enc_str(p.0@) + spec_enc_str(p.1@)
        },
        forall|s1: Seq<char>, s2: Seq<char>|
            #![trigger spec_enc_str(s1), spec_enc_str(s2)]
            str_fits(s1) && str_fits(s2) && i + (spec_enc_str(s1) + spec_enc_str(s2)).len()
                <= b@.len() && b@.subrange(
                i as int,
                i + (spec_enc_str(s1) + spec_enc_str(s2)).len(),
            ) == spec_enc_str(s1) + spec_enc_str(s2) ==> r is Some && (r matches Some(p) ==> p.0@
                == s1 && p.1@ == s2 && p.2 == i + (spec_enc_str(s1) + spec_enc_str(s2)).len()),
{
    proof {
        assert forall|s1: Seq<char>, s2: Seq<char>|
            #![trigger spec_enc_str(s1), spec_enc_str(s2)]
            str_fits(s1) && str_fits(s2) && i + (spec_enc_str(s1) + spec_enc_str(s2)).len()
                <= b@.len() && b@.subrange(
                i as int,
                i + (spec_enc_str(s1) + spec_enc_str(s2)).len(),
            ) == spec_enc_str(s1) + spec_enc_str(s2) implies {
            &&& b@.subrange(i as int, i + spec_enc_str(s1).len()) == spec_enc_str(s1)
            &&& b@.subrange(
                i + spec_enc_str(s1).len(),
                i + spec_enc_str(s1).len() + spec_enc_str(s2).len(),
            ) == spec_enc_str(s2)
        } by {
            lemma_subrange_split(b@, i as int, spec_enc_str(s1), spec_enc_str(s2));
        }
    }
    match dec_str(b, i) {
        None => None,
        Some((a, j)) => {
            match dec_str(b, j) {
                None => None,
                Some((c, k)) => {
                    proof {
                        lemma_subrange_join(b@, i as int, j as int, k as int);
                    }
                    Some((a, c, k))
                },
            }
        },
    }
}

/// For a candidate event encoding occurring at `i` in `b`: the tag byte and
/// the position of each field.
proof fn lemma_client_event_candidate(b: Seq<u8>, i: int, v: ClientEventView)
    requires
        0 <= i,
        i + spec_enc_client_event(v).len() <= b.len(),
        b.subrange(i, i + spec_enc_client_event(v).len()) == spec_enc_client_event(v),
    ensures
        b.len() >= i + 1,
        b[i] == spec_enc_client_event(v)[0],
        match v {
            ClientEventView::GameStart { map, mode } => b[i] == 0 && b.subrange(
                i + 1,
                i + 1 + (spec_enc_str(map) + spec_enc_str(mode)).len(),
            ) == spec_enc_str(map) + spec_enc_str(mode),
            ClientEventView::ClientConnecting { name, uid } => b[i] == 1 && b.subrange(
                i + 1,
                i + 1 + (spec_enc_str(name) + spec_enc_str(uid)).len(),
            ) == spec_enc_str(name) + spec_enc_str(uid),
            ClientEventView::ClientDisconnected { name, uid } => b[i] == 2 && b.subrange(
                i + 1,
                i + 1 + (spec_enc_str(name) + spec_enc_str(uid)).len(),
            ) == spec_enc_str(name) + spec_enc_str(uid),
            ClientEventView::ClientChat { name, uid, message, is_team } => {
                let front = spec_enc_str(name) + spec_enc_str(uid);
                let msg = spec_enc_str(message);
                let flag = spec_enc_bool(is_team);
                &&& b[i] == 3
                &&& b.subrange(i + 1, i + 1 + front.len()) == front
                &&& b.subrange(i + 1 + front.len(), i + 1 + front.len() + msg.len()) == msg
                &&& b.subrange(
                    i + 1 + front.len() + msg.len(),
                    i + 1 + front.len() + msg.len() + flag.len(),
                ) == flag
            },
        },
{
    let enc = spec_enc_client_event(v);
    assert(b[i] == b.subrange(i, i + enc.len())[0]);
    match v {
        ClientEventView::GameStart { map, mode } => {
            let rest = spec_enc_str(map) + spec_enc_str(mode);
            assert(enc =~= seq![0u8] + rest);
            lemma_subrange_split(b, i, seq![0u8], rest);
        },
        ClientEventView::ClientConnecting { name, uid } => {
            let rest = spec_enc_str(name) + spec_enc_str(uid);
            assert(enc =~= seq![1u8] + rest);
            lemma_subrange_split(b, i, seq![1u8], rest);
        },
        ClientEventView::ClientDisconnected { name, uid } => {
            let rest = spec_enc_str(name) + spec_enc_str(uid);
            assert(enc =~= seq![2u8] + rest);
            lemma_subrange_split(b, i, seq![2u8], rest);
        },
        ClientEventView::ClientChat { name, uid, message, is_team } => {
            let front = spec_enc_str(name) + spec_enc_str(uid);
            let msg = spec_enc_str(message);
            let flag = spec_enc_bool(is_team);
            let rest = front + (msg + flag);
            assert(enc =~= seq![3u8] + rest);
            lemma_subrange_split(b, i, seq![3u8], rest);
            lemma_subrange_split(b, i + 1, front, msg + flag);
            lemma_subrange_split(b, i + 1 + front.len(), msg, flag);
        },
    }
}

/// Parses the fields of `GameStart` (tag `0`): two strings after the tag
/// byte. Like every event parser: sound on success, and complete for every
/// candidate event occurring at `i`.
fn dec_game_start(b: &[u8], i: usize) -> (r: Option<(ClientEvent, usize)>)
    requires
        i < b@.len(),
        b@[i as int] == 0,
    ensures
        r matches Some(p) ==> {
            &&& i <= p.1 <= b@.len()
            &&& client_event_fits(p.0@)
            &&& p.1 == i + spec_enc_client_event(p.0@).len()
            &&& b@.subrange(i as int, p.1 as int) == spec_enc_client_event(p.0@)
        },
        forall|v: ClientEventView|
            client_event_fits(v) && i + spec_enc_client_event(v).len() <= b@.len() && b@.subrange(
                i as int,
                i + spec_enc_client_event(v).len(),
            ) == #[trigger] spec_enc_client_event(v) ==> r is Some && (r matches Some(p) ==> p.0@
                == v && p.1 == i + spec_enc_client_event(v).len()),
{
    let slice_len = b.len();
    proof {
        assert(i < slice_len);
    }
    let i1 = i + 1;
    match dec_two_strs(b, i1) {
        None => {
            proof {
                assert forall|v: ClientEventView|
                    client_event_fits(v) && i + spec_enc_client_event(v).len() <= b@.len()
                        && b@.subrange(i as int, i + spec_enc_client_event(v).len())
                        == #[trigger] spec_enc_client_event(v) implies false by {
                    lemma_client_event_candidate(b@, i as int, v);
                }
            }
            None
        },
        Some((map, mode, j)) => {
            let ev = ClientEvent::GameStart { map, mode };
            proof {
                lemma_subrange_join(b@, i as int, i1 as int, j as int);
                assert(b@.subrange(i as int, i + 1) =~= seq![0u8]);
                assert(b@.subrange(i as int, j as int) =~= spec_enc_client_event(ev@));
                assert forall|v: ClientEventView|
                    client_event_fits(v) && i + spec_enc_client_event(v).len() <= b@.len()
                        && b@.subrange(i as int, i + spec_enc_client_event(v).len())
                        == #[trigger] spec_enc_client_event(v) implies v == ev@ && i
                    + spec_enc_client_event(v).len() == j by {
                    lemma_client_event_candidate(b@, i as int, v);
                }
            }
            Some((ev, j))
        },
    }
}

/// Parses the fields of `ClientConnecting` (tag `1`) or `ClientDisconnected`
/// (tag `2`), which share one layout: two strings after the tag byte.
fn dec_client_presence(b: &[u8], i: usize, connecting: bool) -> (r: Option<(ClientEvent, usize)>)
    requires
        i < b@.len(),
        b@[i as int] == (if connecting { 1u8 } else { 2u8 }),
    ensures
        r matches Some(p) ==> {
            &&& i <= p.1 <= b@.len()
            &&& client_event_fits(p.0@)
            &&& p.1 == i + spec_enc_client_event(p.0@).len()
            &&& b@.subrange(i as int, p.1 as int) == spec_enc_client_event(p.0@)
        },
        forall|v: ClientEventView|
            client_event_fits(v) && i + spec_enc_client_event(v).len() <= b@.len() && b@.subrange(
                i as int,
                i + spec_enc_client_event(v).len(),
            ) == #[trigger] spec_enc_client_event(v) ==> r is Some && (r matches Some(p) ==> p.0@
                == v && p.1 == i + spec_enc_client_event(v).len()),
{
    let slice_len = b.len();
    proof {
        assert(i < slice_len);
    }
    let i1 = i + 1;
    match dec_two_strs(b, i1) {
        None => {
            proof {
                assert forall|v: ClientEventView|
                    client_event_fits(v) && i + spec_enc_client_event(v).len() <= b@.len()
                        && b@.subrange(i as int, i + spec_enc_client_event(v).len())
                        == #[trigger] spec_enc_client_event(v) implies false by {
                    lemma_client_event_candidate(b@, i as int, v);
                }
            }
            None
        },
        Some((name, uid, j)) => {
            let ev = if connecting {
                ClientEvent::ClientConnecting { name, uid }
            } else {
                ClientEvent::ClientDisconnected { name, uid }
            };
            proof {
                lemma_subrange_join(b@, i as int, i1 as int, j as int);
                if connecting {
                    assert(b@.subrange(i as int, i + 1) =~= seq![1u8]);
                } else {
                    assert(b@.subrange(i as int, i + 1) =~= seq![2u8]);
                }
                assert(b@.subrange(i as int, j as int) =~= spec_enc_client_event(ev@));
                assert forall|v: ClientEventView|
                    client_event_fits(v) && i + spec_enc_client_event(v).len() <= b@.len()
                        && b@.subrange(i as int, i + spec_enc_client_event(v).len())
                        == #[trigger] spec_enc_client_event(v) implies v == ev@ && i
                    + spec_enc_client_event(v).len() == j by {
                    lemma_client_event_candidate(b@, i as int, v);
                }
            }
            Some((ev, j))
        },
    }
}

/// Two string encodings occurring at the same position are the same string.
proof fn lemma_enc_str_prefix_unique(b: Seq<u8>, i: int, s1: Seq<char>, s2: Seq<char>)
    requires
        0 <= i,
        str_fits(s1),
        str_fits(s2),
        i + spec_enc_str(s1).len() <= b.len(),
        i + spec_enc_str(s2).len() <= b.len(),
        b.subrange(i, i + spec_enc_str(s1).len()) == spec_enc_str(s1),
        b.subrange(i, i + spec_enc_str(s2).len()) == spec_enc_str(s2),
    ensures
        s1 == s2,
{
    lemma_auto_spec_u32_to_from_le_bytes();
    lemma_subrange_split(
        b,
        i,
        spec_u32_to_le_bytes(encode_utf8(s1).len() as u32),
        encode_utf8(s1),
    );
    lemma_subrange_split(
        b,
        i,
        spec_u32_to_le_bytes(encode_utf8(s2).len() as u32),
        encode_utf8(s2),
    );
    assert(spec_u32_to_le_bytes(encode_utf8(s1).len() as u32) == spec_u32_to_le_bytes(
        encode_utf8(s2).len() as u32,
    ));
    assert(encode_utf8(s1).len() as u32 == encode_utf8(s2).len() as u32);
    assert(encode_utf8(s1) == encode_utf8(s2));
    encode_utf8_decode_utf8(s1);
    encode_utf8_decode_utf8(s2);
}

/// Two pairs of string encodings occurring at the same position agree.
proof fn lemma_two_strs_prefix_unique(
    b: Seq<u8>,
    i: int,
    a1: Seq<char>,
    c1: Seq<char>,
    a2: Seq<char>,
    c2: Seq<char>,
)
    requires
        0 <= i,
        str_fits(a1) && str_fits(c1) && str_fits(a2) && str_fits(c2),
        i + (spec_enc_str(a1) + spec_enc_str(c1)).len() <= b.len(),
        i + (spec_enc_str(a2) + spec_enc_str(c2)).len() <= b.len(),
        b.subrange(i, i + (spec_enc_str(a1) + spec_enc_str(c1)).len()) == spec_enc_str(a1)
            + spec_enc_str(c1),
        b.subrange(i, i + (spec_enc_str(a2) + spec_enc_str(c2)).len()) == spec_enc_str(a2)
            + spec_enc_str(c2),
    ensures
        a1 == a2,
        c1 == c2,
{
    lemma_subrange_split(b, i, spec_enc_str(a1), spec_enc_str(c1));
    lemma_subrange_split(b, i, spec_enc_str(a2), spec_enc_str(c2));
    lemma_enc_str_prefix_unique(b, i, a1, a2);
    lemma_enc_str_prefix_unique(b, i + spec_enc_str(a1).len(), c1, c2);
}

/// Two event encodings occurring at the same position are the same event.
proof fn lemma_event_prefix_unique(b: Seq<u8>, i: int, v1: ClientEventView, v2: ClientEventView)
    requires
        0 <= i,
        client_event_fits(v1),
        client_event_fits(v2),
        i + spec_enc_client_event(v1).len() <= b.len(),
        i + spec_enc_client_event(v2).len() <= b.len(),
        b.subrange(i, i + spec_enc_client_event(v1).len()) == spec_enc_client_event(v1),
        b.subrange(i, i + spec_enc_client_event(v2).len()) == spec_enc_client_event(v2),
    ensures
        v1 == v2,
{
    lemma_client_event_candidate(b, i, v1);
    lemma_client_event_candidate(b, i, v2);
    match (v1, v2) {
        (
            ClientEventView::GameStart { map: map1, mode: mode1 },
            ClientEventView::GameStart { map: map2, mode: mode2 },
        ) => {
            lemma_two_strs_prefix_unique(b, i + 1, map1, mode1, map2, mode2);
        },
        (
            ClientEventView::ClientConnecting { name: n1, uid: u1 },
            ClientEventView::ClientConnecting { name: n2, uid: u2 },
        ) => {
            lemma_two_strs_prefix_unique(b, i + 1, n1, u1, n2, u2);
        },
        (
            ClientEventView::ClientDisconnected { name: n1, uid: u1 },
            ClientEventView::ClientDisconnected { name: n2, uid: u2 },
        ) => {
            lemma_two_strs_prefix_unique(b, i + 1, n1, u1, n2, u2);
        },
        (
            ClientEventView::ClientChat { name: n1, uid: u1, message: m1, is_team: t1 },
            ClientEventView::ClientChat { name: n2, uid: u2, message: m2, is_team: t2 },
        ) => {
            lemma_two_strs_prefix_unique(b, i + 1, n1, u1, n2, u2);
            let mid = i + 1 + (spec_enc_str(n1) + spec_enc_str(u1)).len();
            lemma_enc_str_prefix_unique(b, mid, m1, m2);
            let pm = mid + spec_enc_str(m1).len();
            assert(b.subrange(pm, pm + 1) == spec_enc_bool(t1));
            assert(b.subrange(pm, pm + 1) == spec_enc_bool(t2));
            assert(b.subrange(pm, pm + 1)[0] == spec_enc_bool(t1)[0]);
            assert(b.subrange(pm, pm + 1)[0] == spec_enc_bool(t2)[0]);
        },
        _ => {},
    }
}

/// Parses the fields of `ClientChat` (tag `3`): three strings and a flag.
fn dec_client_chat(b: &[u8], i: usize) -> (r: Option<(ClientEvent, usize)>)
    requires
        i < b@.len(),
        b@[i as int] == 3,
    ensures
        r matches Some(p) ==> {
            &&& i <= p.1 <= b@.len()
            &&& client_event_fits(p.0@)
            &&& p.1 == i + spec_enc_client_event(p.0@).len()
            &&& b@.subrange(i as int, p.1 as int) == spec_enc_client_event(p.0@)
        },
        forall|v: ClientEventView|
            client_event_fits(v) && i + spec_enc_client_event(v).len() <= b@.len() && b@.subrange(
                i as int,
                i + spec_enc_client_event(v).len(),
            ) == #[trigger] spec_enc_client_event(v) ==> r is Some && (r matches Some(p) ==> p.0@
                == v && p.1 == i + spec_enc_client_event(v).len()),
{
    let slice_len = b.len();
    proof {
        assert(i < slice_len);
    }
    let i1 = i + 1;
    match dec_two_strs(b, i1) {
        None => {
            proof {
                assert forall|v: ClientEventView|
                    client_event_fits(v) && i + spec_enc_client_event(v).len() <= b@.len()
                        && b@.subrange(i as int, i + spec_enc_client_event(v).len())
                        == #[trigger] spec_enc_client_event(v) implies false by {
                    lemma_client_event_candidate(b@, i as int, v);
                }
            }
            None
        },
        Some((name, uid, j2)) => dec_client_chat_tail(b, i, j2, name, uid),
    }
}

/// Parses the message and team flag of a `ClientChat` whose name and uid
/// were already parsed, ending at `j2`.
#[verifier::rlimit(100)]
fn dec_client_chat_tail(b: &[u8], i: usize, j2: usize, name: String, uid: String) -> (r: Option<
    (ClientEvent, usize),
>)
    requires
        i < b@.len(),
        b@[i as int] == 3,
        i + 1 <= j2 <= b@.len(),
        str_fits(name@) && str_fits(uid@),
        j2 == i + 1 + (spec_enc_str(name@) + spec_enc_str(uid@)).len(),
        b@.subrange(i + 1, j2 as int) == spec_enc_str(name@) + spec_enc_str(uid@),
    ensures
        r matches Some(p) ==> {
            &&& i <= p.1 <= b@.len()
            &&& client_event_fits(p.0@)
            &&& p.1 == i + spec_enc_client_event(p.0@).len()
            &&& b@.subrange(i as int, p.1 as int) == spec_enc_client_event(p.0@)
        },
        forall|v: ClientEventView|
            client_event_fits(v) && i + spec_enc_client_event(v).len() <= b@.len() && b@.subrange(
                i as int,
                i + spec_enc_client_event(v).len(),
            ) == #[trigger] spec_enc_client_event(v) ==> r is Some && (r matches Some(p) ==> p.0@
                == v && p.1 == i + spec_enc_client_event(v).len()),
{
    let i1 = i + 1;
    match dec_str(b, j2) {
        None => {
            proof {
                assert forall|v: ClientEventView|
                    client_event_fits(v) && i + spec_enc_client_event(v).len() <= b@.len()
                        && b@.subrange(i as int, i + spec_enc_client_event(v).len())
                        == #[trigger] spec_enc_client_event(v) implies false by {
                    lemma_client_event_candidate(b@, i as int, v);
                    match v {
                        ClientEventView::ClientChat { name: n0, uid: u0, message: m0, .. } => {
                            lemma_two_strs_prefix_unique(b@, i1 as int, n0, u0, name@, uid@);
                            assert(b@.subrange(j2 as int, j2 + spec_enc_str(m0).len())
                                == spec_enc_str(m0));
                        },
                        _ => {},
                    }
                }
            }
            None
        },
        Some((message, j3)) => {
            match dec_bool(b, j3) {
                None => {
                    proof {
                        assert forall|v: ClientEventView|
                            client_event_fits(v) && i + spec_enc_client_event(v).len() <= b@.len()
                                && b@.subrange(i as int, i + spec_enc_client_event(v).len())
                                == #[trigger] spec_enc_client_event(v) implies false by {
                            lemma_client_event_candidate(b@, i as int, v);
                            match v {
                                ClientEventView::ClientChat {
                                    name: n0,
                                    uid: u0,
                                    message: m0,
                                    is_team: t0,
                                } => {
                                    lemma_two_strs_prefix_unique(b@, i1 as int, n0, u0, name@, uid@);
                                    lemma_enc_str_prefix_unique(b@, j2 as int, m0, message@);
                                    assert(b@.subrange(j3 as int, j3 + 1) == spec_enc_bool(t0));
                                },
                                _ => {},
                            }
                        }
                    }
                    None
                },
                Some((is_team, j)) => {
                    let ev = ClientEvent::ClientChat { name, uid, message, is_team };
                    proof {
                        lemma_subrange_join(b@, i1 as int, j2 as int, j3 as int);
                        lemma_subrange_join(b@, i1 as int, j3 as int, j as int);
                        lemma_subrange_join(b@, i as int, i1 as int, j as int);
                        assert(b@.subrange(i as int, i1 as int) =~= seq![3u8]);
                        assert(b@.subrange(i as int, j as int) =~= spec_enc_client_event(ev@));
                        assert forall|v: ClientEventView|
                            client_event_fits(v) && i + spec_enc_client_event(v).len() <= b@.len()
                                && b@.subrange(i as int, i + spec_enc_client_event(v).len())
                                == #[trigger] spec_enc_client_event(v) implies v == ev@ && i
                            + spec_enc_client_event(v).len() == j by {
                            lemma_event_prefix_unique(b@, i as int, v, ev@);
                        }
                    }
                    Some((ev, j))
                },
            }
        },
    }
}

/// Parses one `ClientEvent` at `i`.
fn dec_client_event(b: &[u8], i: usize) -> (r: Option<(ClientEvent, usize)>)
    requires
        i <= b@.len(),
    ensures
        r matches Some(p) ==> {
            &&& i <= p.1 <= b@.len()
            &&& client_event_fits(p.0@)
            &&& p.1 == i + spec_enc_client_event(p.0@).len()
            &&& b@.subrange(i as int, p.1 as int) == spec_enc_client_event(p.0@)
        },
        forall|v: ClientEventView|
            client_event_fits(v) && i + spec_enc_client_event(v).len() <= b@.len() && b@.subrange(
                i as int,
                i + spec_enc_client_event(v).len(),
            ) == #[trigger] spec_enc_client_event(v) ==> r is Some && (r matches Some(p) ==> p.0@
                == v && p.1 == i + spec_enc_client_event(v).len()),
{
    match dec_u8(b, i) {
        None => {
            proof {
                assert forall|v: ClientEventView|
                    client_event_fits(v) && i + spec_enc_client_event(v).len() <= b@.len()
                        && b@.subrange(i as int, i + spec_enc_client_event(v).len())
                        == #[trigger] spec_enc_client_event(v) implies false by {
                    lemma_client_event_candidate(b@, i as int, v);
                }
            }
            None
        },
        Some((tag, _i1)) => {
            if tag == 0 {
                dec_game_start(b, i)
            } else if tag == 1 {
                dec_client_presence(b, i, true)
            } else if tag == 2 {
                dec_client_presence(b, i, false)
            } else if tag == 3 {
                dec_client_chat(b, i)
            } else {
                proof {
                    assert forall|v: ClientEventView|
                        client_event_fits(v) && i + spec_enc_client_event(v).len() <= b@.len()
                            && b@.subrange(i as int, i + spec_enc_client_event(v).len())
                            == #[trigger] spec_enc_client_event(v) implies false by {
                        lemma_client_event_candidate(b@, i as int, v);
                    }
                }
                None
            }
        },
    }
}

/// Parses one `ClientPacket` payload: the whole of `b` must be one encoding.
fn dec_client_packet(b: &[u8]) -> (r: Option<ClientPacket>)
    ensures
        r matches Some(p) ==> client_packet_fits(p@) && spec_enc_client_packet(p@) == b@,
        forall|v: ClientPacketView|
            client_packet_fits(v) && #[trigger] spec_enc_client_packet(v) == b@ ==> r is Some && (
            r matches Some(p) ==> p@ == v),
{
    proof {
        assert forall|v: ClientPacketView|
            client_packet_fits(v) && #[trigger] spec_enc_client_packet(v) == b@ implies {
            &&& b@.subrange(0, spec_enc_str(v.name).len() as int) == spec_enc_str(v.name)
            &&& b@.subrange(spec_enc_str(v.name).len() as int, b@.len() as int)
                == spec_enc_client_event(v.event)
        } by {
            assert(b@.subrange(0, b@.len() as int) =~= b@);
            lemma_subrange_split(b@, 0, spec_enc_str(v.name), spec_enc_client_event(v.event));
        }
    }
    match dec_str(b, 0) {
        None => None,
        Some((name, j)) => {
            match dec_client_event(b, j) {
                None => None,
                Some((event, k)) => {
                    if k == b.len() {
                        let p = ClientPacket { name, event };
                        proof {
                            lemma_subrange_join(b@, 0, j as int, k as int);
                            assert(b@.subrange(0, b@.len() as int) =~= b@);
                        }
                        Some(p)
                    } else {
                        None
                    }
                },
            }
        },
    }
}

/// Parses one optional string at `i`: tag byte `0` for absent, `1` + string.
fn dec_opt_str(b: &[u8], i: usize) -> (r: Option<(Option<String>, usize)>)
    requires
        i <= b@.len(),
    ensures
        r matches Some(p) ==> {
            &&& i <= p.1 <= b@.len()
            &&& opt_str_fits(opt_view(p.0))
            &&& p.1 == i + spec_enc_opt_str(opt_view(p.0)).len()
            &&& b@.subrange(i as int, p.1 as int) == spec_enc_opt_str(opt_view(p.0))
        },
        forall|v: Option<Seq<char>>|
            opt_str_fits(v) && i + spec_enc_opt_str(v).len() <= b@.len() && b@.subrange(
                i as int,
                i + spec_enc_opt_str(v).len(),
            ) == #[trigger] spec_enc_opt_str(v) ==> r is Some && (r matches Some(p) ==> opt_view(
                p.0,
            ) == v && p.1 == i + spec_enc_opt_str(v).len()),
{
    proof {
        assert forall|v: Option<Seq<char>>|
            opt_str_fits(v) && i + spec_enc_opt_str(v).len() <= b@.len() && b@.subrange(
                i as int,
                i + spec_enc_opt_str(v).len(),
            ) == #[trigger] spec_enc_opt_str(v) implies {
            &&& b@.len() >= i + 1
            &&& b@[i as int] == spec_enc_opt_str(v)[0]
            &&& (v matches Some(s) ==> b@.subrange(i + 1, i + 1 + spec_enc_str(s).len())
                == spec_enc_str(s))
        } by {
            let enc = spec_enc_opt_str(v);
            assert(b@[i as int] == b@.subrange(i as int, i + enc.len())[0]);
            match v {
                Some(s) => {
                    assert(b@.subrange(i + 1, i + enc.len()) =~= spec_enc_str(s)) by {
                        assert forall|k: int| 0 <= k < enc.len() - 1 implies #[trigger] (b@.subrange(
                            i + 1,
                            i + enc.len(),
                        )[k]) == spec_enc_str(s)[k] by {
                            assert(b@.subrange(i as int, i + enc.len())[k + 1] == enc[k + 1]);
                        }
                    }
                },
                None => {},
            }
        }
    }
    match dec_u8(b, i) {
        None => None,
        Some((tag, i1)) => {
            if tag == 0 {
                proof {
                    assert(b@.subrange(i as int, i1 as int) =~= spec_enc_opt_str(
                        opt_view(None::<String>),
                    ));
                }
                Some((None, i1))
            } else if tag == 1 {
                match dec_str(b, i1) {
                    None => None,
                    Some((s, j)) => {
                        proof {
                            lemma_subrange_join(b@, i as int, i1 as int, j as int);
                            assert(b@.subrange(i as int, i1 as int) =~= seq![1u8]);
                            assert(b@.subrange(i as int, j as int) =~= spec_enc_opt_str(
                                opt_view(Some(s)),
                            ));
                        }
                        Some((Some(s), j))
                    },
                }
            } else {
                None
            }
        },
    }
}

/// View of an optional owned string.
pub open spec fn opt_view(s: Option<String>) -> Option<Seq<char>> {
    match s {
        None => None,
        Some(n) => Some(n@),
    }
}

/// Parses one `ServerPacket` payload: the whole of `b` must be one encoding.
fn dec_server_packet(b: &[u8]) -> (r: Option<ServerPacket>)
    ensures
        r matches Some(p) ==> server_packet_fits(p@) && spec_enc_server_packet(p@) == b@,
        forall|v: ServerPacketView|
            server_packet_fits(v) && #[trigger] spec_enc_server_packet(v) == b@ ==> r is Some && (
            r matches Some(p) ==> p@ == v),
{
    proof {
        assert forall|v: ServerPacketView|
            server_packet_fits(v) && #[trigger] spec_enc_server_packet(v) == b@ implies {
            &&& b@.subrange(0, spec_enc_opt_str(v.name).len() as int) == spec_enc_opt_str(v.name)
            &&& b@.subrange(spec_enc_opt_str(v.name).len() as int, b@.len() as int)
                == spec_enc_server_event(v.event)
            &&& b@.subrange(
                spec_enc_opt_str(v.name).len() as int,
                spec_enc_opt_str(v.name).len() as int + 1,
            ) == seq![0u8]
            &&& b@.subrange(spec_enc_opt_str(v.name).len() as int + 1, b@.len() as int) == spec_enc_str(
                v.event->ExecCommand_command,
            )
        } by {
            assert(b@.subrange(0, b@.len() as int) =~= b@);
            lemma_subrange_split(b@, 0, spec_enc_opt_str(v.name), spec_enc_server_event(v.event));
            lemma_subrange_split(
                b@,
                spec_enc_opt_str(v.name).len() as int,
                seq![0u8],
                spec_enc_str(v.event->ExecCommand_command),
            );
        }
    }
    match dec_opt_str(b, 0) {
        None => None,
        Some((name, j)) => {
            match dec_u8(b, j) {
                None => None,
                Some((tag, j1)) => {
                    if tag != 0 {
                        return None;
                    }
                    match dec_str(b, j1) {
                        None => None,
                        Some((command, k)) => {
                            if k == b.len() {
                                let p = ServerPacket {
                                    name,
                                    event: ServerEvent::ExecCommand { command },
                                };
                                proof {
                                    lemma_subrange_join(b@, j as int, j1 as int, k as int);
                                    assert(b@.subrange(j as int, j1 as int) =~= seq![0u8]);
                                    lemma_subrange_join(b@, 0, j as int, k as int);
                                    assert(b@.subrange(0, b@.len() as int) =~= b@);
                                    assert(spec_enc_server_packet(p@) == b@);
                                }
                                Some(p)
                            } else {
                                None
                            }
                        },
                    }
                },
            }
        },
    }
}

/// Encodes one message as a complete wire frame: 4-byte little-endian payload
/// length, then the payload.
pub fn serialize<T: Message>(val: &T) -> (r: Vec<u8>)
    requires
        T::enc_valid(val@),
        T::spec_enc(val@).len() <= u32::MAX,
    ensures
        r@ == spec_frame(T::spec_enc(val@)),
{
    let payload = val.encode_payload();
    let mut out = u32_to_le_bytes(payload.len() as u32);
    out.extend_from_slice(payload.as_slice());
    proof {
        assert(out@ =~= spec_frame(T::spec_enc(val@)));
    }
    out
}

/// Checked form of `serialize`: rejects a message whose encoding cannot fit
/// the 4-byte length fields of the wire format, instead of demanding it.
pub fn try_serialize<T: Message>(val: &T) -> (r: Option<Vec<u8>>)
    ensures
        match r {
            Some(f) => T::enc_valid(val@) && T::spec_enc(val@).len() <= u32::MAX && f@
                == spec_frame(T::spec_enc(val@)),
            None => !(T::enc_valid(val@) && T::spec_enc(val@).len() <= u32::MAX),
        },
{
    if !val.enc_valid_check() {
        return None;
    }
    let payload = val.encode_payload();
    if payload.len() > u32::MAX as usize {
        return None;
    }
    let mut out = u32_to_le_bytes(payload.len() as u32);
    out.extend_from_slice(payload.as_slice());
    proof {
        assert(out@ =~= spec_frame(T::spec_enc(val@)));
    }
    Some(out)
}

} // verus!
