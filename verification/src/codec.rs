//! The packet codec: each packet variant as a length-delimited,
//! self-describing record with its field names on the wire, exactly as the
//! counterpart servers read and write it, and the `u32` big-endian length
//! framing around it.
//!
//! [`encode_packet`] produces exactly [`spec_encode_packet`];
//! [`decode_packet`] accepts exactly those encodings and returns the packet
//! they encode, so decoding an encoded packet gives the packet back, and
//! every unknown variant or malformed byte is a hard error.

use vstd::prelude::*;
use vstd::string::StringSliceAdditionalSpecFns;
use vstd::utf8::{encode_utf8, is_ascii_chars, is_ascii_chars_encode_utf8};

use crate::msgpack::{
    be32, bytes_eq, enc_bool, enc_fixmap, enc_nil, enc_sint, enc_str, enc_str_bytes, enc_uint,
    expect_byte, expect_str, is_prefix_at, lemma_be16_value, lemma_be32_inverse, lemma_be32_value,
    lemma_prefix_index, lemma_prefix_join, lemma_prefix_split, parse_bool, parse_i32, parse_str,
    parse_str_bytes, parse_u16, put_be32, put_i32, put_slice, put_str, put_u16,
};
use crate::packet::{Kind, KindView, Packet, PacketView};
use crate::strutil::lemma_encode_utf8_injective;

verus! {

/// A string small enough for the wire (its UTF-8 form fits the 32-bit
/// string header).
pub open spec fn str_ok(s: Seq<char>) -> bool {
    encode_utf8(s).len() < 0x100000000
}

/// A kind whose strings fit the wire.
pub open spec fn kind_ok(k: KindView) -> bool {
    match k {
        KindView::Minigame { kind } => str_ok(kind),
        _ => true,
    }
}

/// Every string field fits the wire.
pub open spec fn packet_encodable(p: PacketView) -> bool {
    match p {
        PacketView::Authentication { name, kind, ip } => str_ok(name) && kind_ok(kind) && str_ok(
            ip,
        ),
        PacketView::Request { kind, player } => kind_ok(kind) && match player {
            Some(s) => str_ok(s),
            None => true,
        },
        PacketView::LinkServer { name, address, .. } => str_ok(name) && str_ok(address),
        PacketView::UnlinkServer { name } => str_ok(name),
        PacketView::TransportPlayer { player, to } => str_ok(player) && str_ok(to),
        PacketView::Ping { .. } => true,
        PacketView::Pong { .. } => true,
        PacketView::UpdateActive { .. } => true,
    }
}

/// The wire form of a [`Kind`]: a record tagged by `tag`, with the minigame
/// kind under `payload`.
pub open spec fn spec_encode_kind(k: KindView) -> Seq<u8> {
    match k {
        KindView::Limbo => enc_fixmap(1) + enc_str("tag"@) + enc_str("Limbo"@),
        KindView::Proxy => enc_fixmap(1) + enc_str("tag"@) + enc_str("Proxy"@),
        KindView::Lobby => enc_fixmap(1) + enc_str("tag"@) + enc_str("Lobby"@),
        KindView::Minigame { kind } => enc_fixmap(2) + enc_str("tag"@) + enc_str("Minigame"@)
            + enc_str("payload"@) + enc_fixmap(1) + enc_str("kind"@) + enc_str(kind),
    }
}

/// The field records of the packet variants.
pub open spec fn body_auth(name: Seq<char>, kind: KindView, ip: Seq<char>) -> Seq<u8> {
    enc_fixmap(3) + enc_str("name"@) + enc_str(name) + enc_str("kind"@) + spec_encode_kind(kind)
        + enc_str("ip"@) + enc_str(ip)
}

/// The wire form of an optional player.
pub open spec fn player_tail(player: Option<Seq<char>>) -> Seq<u8> {
    match player {
        Some(s) => enc_str(s),
        None => enc_nil(),
    }
}

pub open spec fn body_request(kind: KindView, player: Option<Seq<char>>) -> Seq<u8> {
    enc_fixmap(2) + enc_str("kind"@) + spec_encode_kind(kind) + enc_str("player"@) + player_tail(
        player,
    )
}

pub open spec fn body_link(name: Seq<char>, address: Seq<char>, port: u16, priority: u16) -> Seq<
    u8,
> {
    enc_fixmap(4) + enc_str("name"@) + enc_str(name) + enc_str("address"@) + enc_str(address)
        + enc_str("port"@) + enc_uint(port) + enc_str("priority"@) + enc_uint(priority)
}

pub open spec fn body_unlink(name: Seq<char>) -> Seq<u8> {
    enc_fixmap(1) + enc_str("name"@) + enc_str(name)
}

pub open spec fn body_transport(player: Seq<char>, to: Seq<char>) -> Seq<u8> {
    enc_fixmap(2) + enc_str("player"@) + enc_str(player) + enc_str("to"@) + enc_str(to)
}

pub open spec fn body_timer(timer: i32) -> Seq<u8> {
    enc_fixmap(1) + enc_str("timer"@) + enc_sint(timer)
}

pub open spec fn body_active(active: bool) -> Seq<u8> {
    enc_fixmap(1) + enc_str("active"@) + enc_bool(active)
}

/// The field record of each packet variant.
pub open spec fn spec_body(p: PacketView) -> Seq<u8> {
    match p {
        PacketView::Authentication { name, kind, ip } => body_auth(name, kind, ip),
        PacketView::Request { kind, player } => body_request(kind, player),
        PacketView::LinkServer { name, address, port, priority } => body_link(
            name,
            address,
            port,
            priority,
        ),
        PacketView::UnlinkServer { name } => body_unlink(name),
        PacketView::TransportPlayer { player, to } => body_transport(player, to),
        PacketView::Ping { timer } => body_timer(timer),
        PacketView::Pong { timer } => body_timer(timer),
        PacketView::UpdateActive { active } => body_active(active),
    }
}

/// The variant name each packet goes under on the wire.
pub open spec fn spec_variant_key(p: PacketView) -> Seq<char> {
    match p {
        PacketView::Authentication { .. } => "Authentication"@,
        PacketView::Request { .. } => "Request"@,
        PacketView::LinkServer { .. } => "LinkServer"@,
        PacketView::UnlinkServer { .. } => "UnlinkServer"@,
        PacketView::TransportPlayer { .. } => "TransportPlayer"@,
        PacketView::Ping { .. } => "Ping"@,
        PacketView::Pong { .. } => "Pong"@,
        PacketView::UpdateActive { .. } => "UpdateActive"@,
    }
}

/// The whole wire form of a packet: a one-entry record mapping the variant
/// name to its fields.
pub open spec fn spec_encode_packet(p: PacketView) -> Seq<u8> {
    enc_fixmap(1) + enc_str(spec_variant_key(p)) + spec_body(p)
}

// ---------------------------------------------------------------------------
// The names on the wire, pinned to their characters.
// ---------------------------------------------------------------------------
proof fn lemma_lit_authentication()
    ensures
        "Authentication"@ == seq!['A', 'u', 't', 'h', 'e', 'n', 't', 'i', 'c', 'a', 't', 'i', 'o', 'n'],
        vstd::utf8::encode_utf8("Authentication"@).len() == 14,
{
    reveal_strlit("Authentication");
    assert("Authentication"@ =~= seq!['A', 'u', 't', 'h', 'e', 'n', 't', 'i', 'c', 'a', 't', 'i', 'o', 'n']);
    assert(is_ascii_chars("Authentication"@));
    is_ascii_chars_encode_utf8("Authentication"@);
}

proof fn lemma_lit_request()
    ensures
        "Request"@ == seq!['R', 'e', 'q', 'u', 'e', 's', 't'],
        vstd::utf8::encode_utf8("Request"@).len() == 7,
{
    reveal_strlit("Request");
    assert("Request"@ =~= seq!['R', 'e', 'q', 'u', 'e', 's', 't']);
    assert(is_ascii_chars("Request"@));
    is_ascii_chars_encode_utf8("Request"@);
}

proof fn lemma_lit_linkserver()
    ensures
        "LinkServer"@ == seq!['L', 'i', 'n', 'k', 'S', 'e', 'r', 'v', 'e', 'r'],
        vstd::utf8::encode_utf8("LinkServer"@).len() == 10,
{
    reveal_strlit("LinkServer");
    assert("LinkServer"@ =~= seq!['L', 'i', 'n', 'k', 'S', 'e', 'r', 'v', 'e', 'r']);
    assert(is_ascii_chars("LinkServer"@));
    is_ascii_chars_encode_utf8("LinkServer"@);
}

proof fn lemma_lit_unlinkserver()
    ensures
        "UnlinkServer"@ == seq!['U', 'n', 'l', 'i', 'n', 'k', 'S', 'e', 'r', 'v', 'e', 'r'],
        vstd::utf8::encode_utf8("UnlinkServer"@).len() == 12,
{
    reveal_strlit("UnlinkServer");
    assert("UnlinkServer"@ =~= seq!['U', 'n', 'l', 'i', 'n', 'k', 'S', 'e', 'r', 'v', 'e', 'r']);
    assert(is_ascii_chars("UnlinkServer"@));
    is_ascii_chars_encode_utf8("UnlinkServer"@);
}

proof fn lemma_lit_transportplayer()
    ensures
        "TransportPlayer"@ == seq!['T', 'r', 'a', 'n', 's', 'p', 'o', 'r', 't', 'P', 'l', 'a', 'y', 'e', 'r'],
        vstd::utf8::encode_utf8("TransportPlayer"@).len() == 15,
{
    reveal_strlit("TransportPlayer");
    assert("TransportPlayer"@ =~= seq!['T', 'r', 'a', 'n', 's', 'p', 'o', 'r', 't', 'P', 'l', 'a', 'y', 'e', 'r']);
    assert(is_ascii_chars("TransportPlayer"@));
    is_ascii_chars_encode_utf8("TransportPlayer"@);
}

proof fn lemma_lit_ping()
    ensures
        "Ping"@ == seq!['P', 'i', 'n', 'g'],
        vstd::utf8::encode_utf8("Ping"@).len() == 4,
{
    reveal_strlit("Ping");
    assert("Ping"@ =~= seq!['P', 'i', 'n', 'g']);
    assert(is_ascii_chars("Ping"@));
    is_ascii_chars_encode_utf8("Ping"@);
}

proof fn lemma_lit_pong()
    ensures
        "Pong"@ == seq!['P', 'o', 'n', 'g'],
        vstd::utf8::encode_utf8("Pong"@).len() == 4,
{
    reveal_strlit("Pong");
    assert("Pong"@ =~= seq!['P', 'o', 'n', 'g']);
    assert(is_ascii_chars("Pong"@));
    is_ascii_chars_encode_utf8("Pong"@);
}

proof fn lemma_lit_updateactive()
    ensures
        "UpdateActive"@ == seq!['U', 'p', 'd', 'a', 't', 'e', 'A', 'c', 't', 'i', 'v', 'e'],
        vstd::utf8::encode_utf8("UpdateActive"@).len() == 12,
{
    reveal_strlit("UpdateActive");
    assert("UpdateActive"@ =~= seq!['U', 'p', 'd', 'a', 't', 'e', 'A', 'c', 't', 'i', 'v', 'e']);
    assert(is_ascii_chars("UpdateActive"@));
    is_ascii_chars_encode_utf8("UpdateActive"@);
}

proof fn lemma_lit_name()
    ensures
        "name"@ == seq!['n', 'a', 'm', 'e'],
        vstd::utf8::encode_utf8("name"@).len() == 4,
{
    reveal_strlit("name");
    assert("name"@ =~= seq!['n', 'a', 'm', 'e']);
    assert(is_ascii_chars("name"@));
    is_ascii_chars_encode_utf8("name"@);
}

proof fn lemma_lit_kind()
    ensures
        "kind"@ == seq!['k', 'i', 'n', 'd'],
        vstd::utf8::encode_utf8("kind"@).len() == 4,
{
    reveal_strlit("kind");
    assert("kind"@ =~= seq!['k', 'i', 'n', 'd']);
    assert(is_ascii_chars("kind"@));
    is_ascii_chars_encode_utf8("kind"@);
}

proof fn lemma_lit_ip()
    ensures
        "ip"@ == seq!['i', 'p'],
        vstd::utf8::encode_utf8("ip"@).len() == 2,
{
    reveal_strlit("ip");
    assert("ip"@ =~= seq!['i', 'p']);
    assert(is_ascii_chars("ip"@));
    is_ascii_chars_encode_utf8("ip"@);
}

proof fn lemma_lit_player()
    ensures
        "player"@ == seq!['p', 'l', 'a', 'y', 'e', 'r'],
        vstd::utf8::encode_utf8("player"@).len() == 6,
{
    reveal_strlit("player");
    assert("player"@ =~= seq!['p', 'l', 'a', 'y', 'e', 'r']);
    assert(is_ascii_chars("player"@));
    is_ascii_chars_encode_utf8("player"@);
}

proof fn lemma_lit_address()
    ensures
        "address"@ == seq!['a', 'd', 'd', 'r', 'e', 's', 's'],
        vstd::utf8::encode_utf8("address"@).len() == 7,
{
    reveal_strlit("address");
    assert("address"@ =~= seq!['a', 'd', 'd', 'r', 'e', 's', 's']);
    assert(is_ascii_chars("address"@));
    is_ascii_chars_encode_utf8("address"@);
}

proof fn lemma_lit_port()
    ensures
        "port"@ == seq!['p', 'o', 'r', 't'],
        vstd::utf8::encode_utf8("port"@).len() == 4,
{
    reveal_strlit("port");
    assert("port"@ =~= seq!['p', 'o', 'r', 't']);
    assert(is_ascii_chars("port"@));
    is_ascii_chars_encode_utf8("port"@);
}

proof fn lemma_lit_priority()
    ensures
        "priority"@ == seq!['p', 'r', 'i', 'o', 'r', 'i', 't', 'y'],
        vstd::utf8::encode_utf8("priority"@).len() == 8,
{
    reveal_strlit("priority");
    assert("priority"@ =~= seq!['p', 'r', 'i', 'o', 'r', 'i', 't', 'y']);
    assert(is_ascii_chars("priority"@));
    is_ascii_chars_encode_utf8("priority"@);
}

proof fn lemma_lit_timer()
    ensures
        "timer"@ == seq!['t', 'i', 'm', 'e', 'r'],
        vstd::utf8::encode_utf8("timer"@).len() == 5,
{
    reveal_strlit("timer");
    assert("timer"@ =~= seq!['t', 'i', 'm', 'e', 'r']);
    assert(is_ascii_chars("timer"@));
    is_ascii_chars_encode_utf8("timer"@);
}

proof fn lemma_lit_active()
    ensures
        "active"@ == seq!['a', 'c', 't', 'i', 'v', 'e'],
        vstd::utf8::encode_utf8("active"@).len() == 6,
{
    reveal_strlit("active");
    assert("active"@ =~= seq!['a', 'c', 't', 'i', 'v', 'e']);
    assert(is_ascii_chars("active"@));
    is_ascii_chars_encode_utf8("active"@);
}

proof fn lemma_lit_to()
    ensures
        "to"@ == seq!['t', 'o'],
        vstd::utf8::encode_utf8("to"@).len() == 2,
{
    reveal_strlit("to");
    assert("to"@ =~= seq!['t', 'o']);
    assert(is_ascii_chars("to"@));
    is_ascii_chars_encode_utf8("to"@);
}

proof fn lemma_lit_tag()
    ensures
        "tag"@ == seq!['t', 'a', 'g'],
        vstd::utf8::encode_utf8("tag"@).len() == 3,
{
    reveal_strlit("tag");
    assert("tag"@ =~= seq!['t', 'a', 'g']);
    assert(is_ascii_chars("tag"@));
    is_ascii_chars_encode_utf8("tag"@);
}

proof fn lemma_lit_payload()
    ensures
        "payload"@ == seq!['p', 'a', 'y', 'l', 'o', 'a', 'd'],
        vstd::utf8::encode_utf8("payload"@).len() == 7,
{
    reveal_strlit("payload");
    assert("payload"@ =~= seq!['p', 'a', 'y', 'l', 'o', 'a', 'd']);
    assert(is_ascii_chars("payload"@));
    is_ascii_chars_encode_utf8("payload"@);
}

proof fn lemma_lit_limbo()
    ensures
        "Limbo"@ == seq!['L', 'i', 'm', 'b', 'o'],
        vstd::utf8::encode_utf8("Limbo"@).len() == 5,
{
    reveal_strlit("Limbo");
    assert("Limbo"@ =~= seq!['L', 'i', 'm', 'b', 'o']);
    assert(is_ascii_chars("Limbo"@));
    is_ascii_chars_encode_utf8("Limbo"@);
}

proof fn lemma_lit_proxy()
    ensures
        "Proxy"@ == seq!['P', 'r', 'o', 'x', 'y'],
        vstd::utf8::encode_utf8("Proxy"@).len() == 5,
{
    reveal_strlit("Proxy");
    assert("Proxy"@ =~= seq!['P', 'r', 'o', 'x', 'y']);
    assert(is_ascii_chars("Proxy"@));
    is_ascii_chars_encode_utf8("Proxy"@);
}

proof fn lemma_lit_lobby()
    ensures
        "Lobby"@ == seq!['L', 'o', 'b', 'b', 'y'],
        vstd::utf8::encode_utf8("Lobby"@).len() == 5,
{
    reveal_strlit("Lobby");
    assert("Lobby"@ =~= seq!['L', 'o', 'b', 'b', 'y']);
    assert(is_ascii_chars("Lobby"@));
    is_ascii_chars_encode_utf8("Lobby"@);
}

proof fn lemma_lit_minigame()
    ensures
        "Minigame"@ == seq!['M', 'i', 'n', 'i', 'g', 'a', 'm', 'e'],
        vstd::utf8::encode_utf8("Minigame"@).len() == 8,
{
    reveal_strlit("Minigame");
    assert("Minigame"@ =~= seq!['M', 'i', 'n', 'i', 'g', 'a', 'm', 'e']);
    assert(is_ascii_chars("Minigame"@));
    is_ascii_chars_encode_utf8("Minigame"@);
}


// ---------------------------------------------------------------------------
// Encoding.
// ---------------------------------------------------------------------------
/// Whether this string fits the wire.
fn str_fits(s: &str) -> (r: bool)
    ensures
        r == str_ok(s@),
{
    (s.as_bytes().len() as u64) < 0x100000000u64
}

/// Append the wire form of a kind.
fn encode_kind(out: &mut Vec<u8>, k: &Kind)
    requires
        kind_ok(k@),
    ensures
        final(out)@ == old(out)@ + spec_encode_kind(k@),
{
    proof {
        lemma_lit_tag();
        lemma_lit_limbo();
        lemma_lit_proxy();
        lemma_lit_lobby();
        lemma_lit_minigame();
        lemma_lit_payload();
        lemma_lit_kind();
    }
    match k {
        Kind::Limbo => {
            out.push(0x81);
            put_str(out, "tag");
            put_str(out, "Limbo");
        },
        Kind::Proxy => {
            out.push(0x81);
            put_str(out, "tag");
            put_str(out, "Proxy");
        },
        Kind::Lobby => {
            out.push(0x81);
            put_str(out, "tag");
            put_str(out, "Lobby");
        },
        Kind::Minigame { kind } => {
            out.push(0x82);
            put_str(out, "tag");
            put_str(out, "Minigame");
            put_str(out, "payload");
            out.push(0x81);
            put_str(out, "kind");
            put_str(out, kind.as_str());
        },
    }
    proof {
        assert(out@ =~= old(out)@ + spec_encode_kind(k@));
    }
}

/// Whether every string in the packet fits the wire.
fn check_encodable(p: &Packet) -> (r: bool)
    ensures
        r == packet_encodable(p@),
{
    match p {
        Packet::Authentication { name, kind, ip } => str_fits(name.as_str()) && kind_fits(kind)
            && str_fits(ip.as_str()),
        Packet::Request { kind, player } => kind_fits(kind) && match player {
            Some(s) => str_fits(s.as_str()),
            None => true,
        },
        Packet::LinkServer { name, address, .. } => str_fits(name.as_str()) && str_fits(
            address.as_str(),
        ),
        Packet::UnlinkServer { name } => str_fits(name.as_str()),
        Packet::TransportPlayer { player, to } => str_fits(player.as_str()) && str_fits(
            to.as_str(),
        ),
        Packet::Ping { .. } => true,
        Packet::Pong { .. } => true,
        Packet::UpdateActive { .. } => true,
    }
}

fn kind_fits(k: &Kind) -> (r: bool)
    ensures
        r == kind_ok(k@),
{
    match k {
        Kind::Minigame { kind } => str_fits(kind.as_str()),
        _ => true,
    }
}

/// Encode a packet to its exact wire form; `None` iff some string is too
/// large for the wire (which no real server name or address ever is).
#[verifier::rlimit(100)]
pub fn encode_packet(p: &Packet) -> (r: Option<Vec<u8>>)
    ensures
        r matches Some(v) ==> packet_encodable(p@) && v@ == spec_encode_packet(p@),
        r is None ==> !packet_encodable(p@),
{
    if !check_encodable(p) {
        return None;
    }
    let mut out: Vec<u8> = Vec::new();
    out.push(0x81);
    proof {
        lemma_lit_authentication();
        lemma_lit_request();
        lemma_lit_linkserver();
        lemma_lit_unlinkserver();
        lemma_lit_transportplayer();
        lemma_lit_ping();
        lemma_lit_pong();
        lemma_lit_updateactive();
        lemma_lit_name();
        lemma_lit_kind();
        lemma_lit_ip();
        lemma_lit_player();
        lemma_lit_address();
        lemma_lit_port();
        lemma_lit_priority();
        lemma_lit_timer();
        lemma_lit_active();
        lemma_lit_to();
    }
    match p {
        Packet::Authentication { name, kind, ip } => {
            put_str(&mut out, "Authentication");
            out.push(0x83);
            put_str(&mut out, "name");
            put_str(&mut out, name.as_str());
            put_str(&mut out, "kind");
            encode_kind(&mut out, kind);
            put_str(&mut out, "ip");
            put_str(&mut out, ip.as_str());
        },
        Packet::Request { kind, player } => {
            put_str(&mut out, "Request");
            out.push(0x82);
            put_str(&mut out, "kind");
            encode_kind(&mut out, kind);
            put_str(&mut out, "player");
            match player {
                Some(s) => put_str(&mut out, s.as_str()),
                None => out.push(0xc0),
            }
        },
        Packet::LinkServer { name, address, port, priority } => {
            put_str(&mut out, "LinkServer");
            out.push(0x84);
            put_str(&mut out, "name");
            put_str(&mut out, name.as_str());
            put_str(&mut out, "address");
            put_str(&mut out, address.as_str());
            put_str(&mut out, "port");
            put_u16(&mut out, *port);
            put_str(&mut out, "priority");
            put_u16(&mut out, *priority);
        },
        Packet::UnlinkServer { name } => {
            put_str(&mut out, "UnlinkServer");
            out.push(0x81);
            put_str(&mut out, "name");
            put_str(&mut out, name.as_str());
        },
        Packet::TransportPlayer { player, to } => {
            put_str(&mut out, "TransportPlayer");
            out.push(0x82);
            put_str(&mut out, "player");
            put_str(&mut out, player.as_str());
            put_str(&mut out, "to");
            put_str(&mut out, to.as_str());
        },
        Packet::Ping { timer } => {
            put_str(&mut out, "Ping");
            out.push(0x81);
            put_str(&mut out, "timer");
            put_i32(&mut out, *timer);
        },
        Packet::Pong { timer } => {
            put_str(&mut out, "Pong");
            out.push(0x81);
            put_str(&mut out, "timer");
            put_i32(&mut out, *timer);
        },
        Packet::UpdateActive { active } => {
            put_str(&mut out, "UpdateActive");
            out.push(0x81);
            put_str(&mut out, "active");
            out.push(if *active {
                0xc3
            } else {
                0xc2
            });
        },
    }
    proof {
        assert(out@ =~= spec_encode_packet(p@));
    }
    Some(out)
}

proof fn lemma_split_body_auth(gb: Seq<u8>, pos: int, name: Seq<char>, kind: KindView, ip: Seq<char>)
    requires
        is_prefix_at(gb, pos, enc_fixmap(3) + enc_str("name"@) + enc_str(name) + enc_str("kind"@) + spec_encode_kind(kind) + enc_str("ip"@) + enc_str(ip)),
    ensures
        is_prefix_at(gb, pos, enc_fixmap(3)),
        is_prefix_at(gb, pos + enc_fixmap(3).len(), enc_str("name"@)),
        is_prefix_at(gb, pos + enc_fixmap(3).len() + enc_str("name"@).len(), enc_str(name)),
        is_prefix_at(gb, pos + enc_fixmap(3).len() + enc_str("name"@).len() + enc_str(name).len(), enc_str("kind"@)),
        is_prefix_at(gb, pos + enc_fixmap(3).len() + enc_str("name"@).len() + enc_str(name).len() + enc_str("kind"@).len(), spec_encode_kind(kind)),
        is_prefix_at(gb, pos + enc_fixmap(3).len() + enc_str("name"@).len() + enc_str(name).len() + enc_str("kind"@).len() + spec_encode_kind(kind).len(), enc_str("ip"@)),
        is_prefix_at(gb, pos + enc_fixmap(3).len() + enc_str("name"@).len() + enc_str(name).len() + enc_str("kind"@).len() + spec_encode_kind(kind).len() + enc_str("ip"@).len(), enc_str(ip)),
{
    lemma_prefix_split(gb, pos, enc_fixmap(3) + enc_str("name"@) + enc_str(name) + enc_str("kind"@) + spec_encode_kind(kind) + enc_str("ip"@), enc_str(ip));
    lemma_prefix_split(gb, pos, enc_fixmap(3) + enc_str("name"@) + enc_str(name) + enc_str("kind"@) + spec_encode_kind(kind), enc_str("ip"@));
    lemma_prefix_split(gb, pos, enc_fixmap(3) + enc_str("name"@) + enc_str(name) + enc_str("kind"@), spec_encode_kind(kind));
    lemma_prefix_split(gb, pos, enc_fixmap(3) + enc_str("name"@) + enc_str(name), enc_str("kind"@));
    lemma_prefix_split(gb, pos, enc_fixmap(3) + enc_str("name"@), enc_str(name));
    lemma_prefix_split(gb, pos, enc_fixmap(3), enc_str("name"@));
}

proof fn lemma_split_body_request(gb: Seq<u8>, pos: int, kind: KindView, ptail: Seq<u8>)
    requires
        is_prefix_at(gb, pos, enc_fixmap(2) + enc_str("kind"@) + spec_encode_kind(kind) + enc_str("player"@) + ptail),
    ensures
        is_prefix_at(gb, pos, enc_fixmap(2)),
        is_prefix_at(gb, pos + enc_fixmap(2).len(), enc_str("kind"@)),
        is_prefix_at(gb, pos + enc_fixmap(2).len() + enc_str("kind"@).len(), spec_encode_kind(kind)),
        is_prefix_at(gb, pos + enc_fixmap(2).len() + enc_str("kind"@).len() + spec_encode_kind(kind).len(), enc_str("player"@)),
        is_prefix_at(gb, pos + enc_fixmap(2).len() + enc_str("kind"@).len() + spec_encode_kind(kind).len() + enc_str("player"@).len(), ptail),
{
    lemma_prefix_split(gb, pos, enc_fixmap(2) + enc_str("kind"@) + spec_encode_kind(kind) + enc_str("player"@), ptail);
    lemma_prefix_split(gb, pos, enc_fixmap(2) + enc_str("kind"@) + spec_encode_kind(kind), enc_str("player"@));
    lemma_prefix_split(gb, pos, enc_fixmap(2) + enc_str("kind"@), spec_encode_kind(kind));
    lemma_prefix_split(gb, pos, enc_fixmap(2), enc_str("kind"@));
}

proof fn lemma_split_body_link(gb: Seq<u8>, pos: int, name: Seq<char>, address: Seq<char>, port: u16, priority: u16)
    requires
        is_prefix_at(gb, pos, enc_fixmap(4) + enc_str("name"@) + enc_str(name) + enc_str("address"@) + enc_str(address) + enc_str("port"@) + enc_uint(port) + enc_str("priority"@) + enc_uint(priority)),
    ensures
        is_prefix_at(gb, pos, enc_fixmap(4)),
        is_prefix_at(gb, pos + enc_fixmap(4).len(), enc_str("name"@)),
        is_prefix_at(gb, pos + enc_fixmap(4).len() + enc_str("name"@).len(), enc_str(name)),
        is_prefix_at(gb, pos + enc_fixmap(4).len() + enc_str("name"@).len() + enc_str(name).len(), enc_str("address"@)),
        is_prefix_at(gb, pos + enc_fixmap(4).len() + enc_str("name"@).len() + enc_str(name).len() + enc_str("address"@).len(), enc_str(address)),
        is_prefix_at(gb, pos + enc_fixmap(4).len() + enc_str("name"@).len() + enc_str(name).len() + enc_str("address"@).len() + enc_str(address).len(), enc_str("port"@)),
        is_prefix_at(gb, pos + enc_fixmap(4).len() + enc_str("name"@).len() + enc_str(name).len() + enc_str("address"@).len() + enc_str(address).len() + enc_str("port"@).len(), enc_uint(port)),
        is_prefix_at(gb, pos + enc_fixmap(4).len() + enc_str("name"@).len() + enc_str(name).len() + enc_str("address"@).len() + enc_str(address).len() + enc_str("port"@).len() + enc_uint(port).len(), enc_str("priority"@)),
        is_prefix_at(gb, pos + enc_fixmap(4).len() + enc_str("name"@).len() + enc_str(name).len() + enc_str("address"@).len() + enc_str(address).len() + enc_str("port"@).len() + enc_uint(port).len() + enc_str("priority"@).len(), enc_uint(priority)),
{
    lemma_prefix_split(gb, pos, enc_fixmap(4) + enc_str("name"@) + enc_str(name) + enc_str("address"@) + enc_str(address) + enc_str("port"@) + enc_uint(port) + enc_str("priority"@), enc_uint(priority));
    lemma_prefix_split(gb, pos, enc_fixmap(4) + enc_str("name"@) + enc_str(name) + enc_str("address"@) + enc_str(address) + enc_str("port"@) + enc_uint(port), enc_str("priority"@));
    lemma_prefix_split(gb, pos, enc_fixmap(4) + enc_str("name"@) + enc_str(name) + enc_str("address"@) + enc_str(address) + enc_str("port"@), enc_uint(port));
    lemma_prefix_split(gb, pos, enc_fixmap(4) + enc_str("name"@) + enc_str(name) + enc_str("address"@) + enc_str(address), enc_str("port"@));
    lemma_prefix_split(gb, pos, enc_fixmap(4) + enc_str("name"@) + enc_str(name) + enc_str("address"@), enc_str(address));
    lemma_prefix_split(gb, pos, enc_fixmap(4) + enc_str("name"@) + enc_str(name), enc_str("address"@));
    lemma_prefix_split(gb, pos, enc_fixmap(4) + enc_str("name"@), enc_str(name));
    lemma_prefix_split(gb, pos, enc_fixmap(4), enc_str("name"@));
}

proof fn lemma_split_body_unlink(gb: Seq<u8>, pos: int, name: Seq<char>)
    requires
        is_prefix_at(gb, pos, enc_fixmap(1) + enc_str("name"@) + enc_str(name)),
    ensures
        is_prefix_at(gb, pos, enc_fixmap(1)),
        is_prefix_at(gb, pos + enc_fixmap(1).len(), enc_str("name"@)),
        is_prefix_at(gb, pos + enc_fixmap(1).len() + enc_str("name"@).len(), enc_str(name)),
{
    lemma_prefix_split(gb, pos, enc_fixmap(1) + enc_str("name"@), enc_str(name));
    lemma_prefix_split(gb, pos, enc_fixmap(1), enc_str("name"@));
}

proof fn lemma_split_body_transport(gb: Seq<u8>, pos: int, player: Seq<char>, to: Seq<char>)
    requires
        is_prefix_at(gb, pos, enc_fixmap(2) + enc_str("player"@) + enc_str(player) + enc_str("to"@) + enc_str(to)),
    ensures
        is_prefix_at(gb, pos, enc_fixmap(2)),
        is_prefix_at(gb, pos + enc_fixmap(2).len(), enc_str("player"@)),
        is_prefix_at(gb, pos + enc_fixmap(2).len() + enc_str("player"@).len(), enc_str(player)),
        is_prefix_at(gb, pos + enc_fixmap(2).len() + enc_str("player"@).len() + enc_str(player).len(), enc_str("to"@)),
        is_prefix_at(gb, pos + enc_fixmap(2).len() + enc_str("player"@).len() + enc_str(player).len() + enc_str("to"@).len(), enc_str(to)),
{
    lemma_prefix_split(gb, pos, enc_fixmap(2) + enc_str("player"@) + enc_str(player) + enc_str("to"@), enc_str(to));
    lemma_prefix_split(gb, pos, enc_fixmap(2) + enc_str("player"@) + enc_str(player), enc_str("to"@));
    lemma_prefix_split(gb, pos, enc_fixmap(2) + enc_str("player"@), enc_str(player));
    lemma_prefix_split(gb, pos, enc_fixmap(2), enc_str("player"@));
}

proof fn lemma_split_body_timer(gb: Seq<u8>, pos: int, timer: i32)
    requires
        is_prefix_at(gb, pos, enc_fixmap(1) + enc_str("timer"@) + enc_sint(timer)),
    ensures
        is_prefix_at(gb, pos, enc_fixmap(1)),
        is_prefix_at(gb, pos + enc_fixmap(1).len(), enc_str("timer"@)),
        is_prefix_at(gb, pos + enc_fixmap(1).len() + enc_str("timer"@).len(), enc_sint(timer)),
{
    lemma_prefix_split(gb, pos, enc_fixmap(1) + enc_str("timer"@), enc_sint(timer));
    lemma_prefix_split(gb, pos, enc_fixmap(1), enc_str("timer"@));
}

proof fn lemma_split_body_active(gb: Seq<u8>, pos: int, active: bool)
    requires
        is_prefix_at(gb, pos, enc_fixmap(1) + enc_str("active"@) + enc_bool(active)),
    ensures
        is_prefix_at(gb, pos, enc_fixmap(1)),
        is_prefix_at(gb, pos + enc_fixmap(1).len(), enc_str("active"@)),
        is_prefix_at(gb, pos + enc_fixmap(1).len() + enc_str("active"@).len(), enc_bool(active)),
{
    lemma_prefix_split(gb, pos, enc_fixmap(1) + enc_str("active"@), enc_bool(active));
    lemma_prefix_split(gb, pos, enc_fixmap(1), enc_str("active"@));
}

proof fn lemma_split_kind_unit(gb: Seq<u8>, pos: int, tag: Seq<char>)
    requires
        is_prefix_at(gb, pos, enc_fixmap(1) + enc_str("tag"@) + enc_str(tag)),
    ensures
        is_prefix_at(gb, pos, enc_fixmap(1)),
        is_prefix_at(gb, pos + enc_fixmap(1).len(), enc_str("tag"@)),
        is_prefix_at(gb, pos + enc_fixmap(1).len() + enc_str("tag"@).len(), enc_str(tag)),
{
    lemma_prefix_split(gb, pos, enc_fixmap(1) + enc_str("tag"@), enc_str(tag));
    lemma_prefix_split(gb, pos, enc_fixmap(1), enc_str("tag"@));
}

proof fn lemma_split_kind_minigame(gb: Seq<u8>, pos: int, mk: Seq<char>)
    requires
        is_prefix_at(gb, pos, enc_fixmap(2) + enc_str("tag"@) + enc_str("Minigame"@) + enc_str("payload"@) + enc_fixmap(1) + enc_str("kind"@) + enc_str(mk)),
    ensures
        is_prefix_at(gb, pos, enc_fixmap(2)),
        is_prefix_at(gb, pos + enc_fixmap(2).len(), enc_str("tag"@)),
        is_prefix_at(gb, pos + enc_fixmap(2).len() + enc_str("tag"@).len(), enc_str("Minigame"@)),
        is_prefix_at(gb, pos + enc_fixmap(2).len() + enc_str("tag"@).len() + enc_str("Minigame"@).len(), enc_str("payload"@)),
        is_prefix_at(gb, pos + enc_fixmap(2).len() + enc_str("tag"@).len() + enc_str("Minigame"@).len() + enc_str("payload"@).len(), enc_fixmap(1)),
        is_prefix_at(gb, pos + enc_fixmap(2).len() + enc_str("tag"@).len() + enc_str("Minigame"@).len() + enc_str("payload"@).len() + enc_fixmap(1).len(), enc_str("kind"@)),
        is_prefix_at(gb, pos + enc_fixmap(2).len() + enc_str("tag"@).len() + enc_str("Minigame"@).len() + enc_str("payload"@).len() + enc_fixmap(1).len() + enc_str("kind"@).len(), enc_str(mk)),
{
    lemma_prefix_split(gb, pos, enc_fixmap(2) + enc_str("tag"@) + enc_str("Minigame"@) + enc_str("payload"@) + enc_fixmap(1) + enc_str("kind"@), enc_str(mk));
    lemma_prefix_split(gb, pos, enc_fixmap(2) + enc_str("tag"@) + enc_str("Minigame"@) + enc_str("payload"@) + enc_fixmap(1), enc_str("kind"@));
    lemma_prefix_split(gb, pos, enc_fixmap(2) + enc_str("tag"@) + enc_str("Minigame"@) + enc_str("payload"@), enc_fixmap(1));
    lemma_prefix_split(gb, pos, enc_fixmap(2) + enc_str("tag"@) + enc_str("Minigame"@), enc_str("payload"@));
    lemma_prefix_split(gb, pos, enc_fixmap(2) + enc_str("tag"@), enc_str("Minigame"@));
    lemma_prefix_split(gb, pos, enc_fixmap(2), enc_str("tag"@));
}

proof fn lemma_split_packet(gb: Seq<u8>, pos: int, key: Seq<char>, body: Seq<u8>)
    requires
        is_prefix_at(gb, pos, enc_fixmap(1) + enc_str(key) + body),
    ensures
        is_prefix_at(gb, pos, enc_fixmap(1)),
        is_prefix_at(gb, pos + enc_fixmap(1).len(), enc_str(key)),
        is_prefix_at(gb, pos + enc_fixmap(1).len() + enc_str(key).len(), body),
{
    lemma_prefix_split(gb, pos, enc_fixmap(1) + enc_str(key), body);
    lemma_prefix_split(gb, pos, enc_fixmap(1), enc_str(key));
}

// ---------------------------------------------------------------------------
// Decoding.
// ---------------------------------------------------------------------------
/// A decode failure: the bytes are not the wire form of any packet.
#[derive(Debug, Clone, Copy, PartialEq, Eq, Structural)]
pub enum DecodeError {
    /// Truncated input, a malformed or non-compact value, bytes left over,
    /// or an unknown variant or kind tag.
    Malformed,
}

/// The tag string a kind is written under.
pub open spec fn kind_tag_name(kv: KindView) -> Seq<char> {
    match kv {
        KindView::Limbo => "Limbo"@,
        KindView::Proxy => "Proxy"@,
        KindView::Lobby => "Lobby"@,
        KindView::Minigame { .. } => "Minigame"@,
    }
}

/// Where the pieces of an encoded kind sit.
proof fn lemma_kind_cases(gb: Seq<u8>, pos: int, kv: KindView)
    requires
        kind_ok(kv),
        is_prefix_at(gb, pos, spec_encode_kind(kv)),
    ensures
        !(kv is Minigame) ==> is_prefix_at(gb, pos, seq![0x81u8]) && is_prefix_at(
            gb,
            pos + 1,
            enc_str("tag"@),
        ) && is_prefix_at(gb, pos + 1 + enc_str("tag"@).len(), enc_str(kind_tag_name(kv))),
        kv is Minigame ==> is_prefix_at(gb, pos, seq![0x82u8]) && is_prefix_at(
            gb,
            pos + 1,
            enc_str("tag"@),
        ) && is_prefix_at(gb, pos + 1 + enc_str("tag"@).len(), enc_str("Minigame"@))
            && is_prefix_at(
            gb,
            pos + 1 + enc_str("tag"@).len() + enc_str("Minigame"@).len(),
            enc_str("payload"@),
        ) && is_prefix_at(
            gb,
            pos + 1 + enc_str("tag"@).len() + enc_str("Minigame"@).len() + enc_str(
                "payload"@,
            ).len(),
            seq![0x81u8],
        ) && is_prefix_at(
            gb,
            pos + 2 + enc_str("tag"@).len() + enc_str("Minigame"@).len() + enc_str(
                "payload"@,
            ).len(),
            enc_str("kind"@),
        ) && is_prefix_at(
            gb,
            pos + 2 + enc_str("tag"@).len() + enc_str("Minigame"@).len() + enc_str(
                "payload"@,
            ).len() + enc_str("kind"@).len(),
            enc_str(kv->Minigame_kind),
        ),
{
    assert(enc_fixmap(1) =~= seq![0x81u8]);
    assert(enc_fixmap(2) =~= seq![0x82u8]);
    match kv {
        KindView::Limbo => {
            lemma_split_kind_unit(gb, pos, "Limbo"@);
        },
        KindView::Proxy => {
            lemma_split_kind_unit(gb, pos, "Proxy"@);
        },
        KindView::Lobby => {
            lemma_split_kind_unit(gb, pos, "Lobby"@);
        },
        KindView::Minigame { kind } => {
            lemma_split_kind_minigame(gb, pos, kind);
        },
    }
}

/// Two string encodings at the same position encode the same string.
proof fn lemma_enc_str_same_pos(gb: Seq<u8>, pos: int, s1: Seq<char>, s2: Seq<char>)
    requires
        encode_utf8(s1).len() < 0x100000000,
        encode_utf8(s2).len() < 0x100000000,
        is_prefix_at(gb, pos, enc_str(s1)),
        is_prefix_at(gb, pos, enc_str(s2)),
    ensures
        s1 == s2,
{
    let b1 = encode_utf8(s1);
    let b2 = encode_utf8(s2);
    lemma_prefix_index(gb, pos, enc_str_bytes(b1), 0);
    lemma_prefix_index(gb, pos, enc_str_bytes(b2), 0);
    if b1.len() < 32 {
        assert(b2.len() < 32);
        assert(b1.len() == b2.len());
        assert(b1 =~= b2) by {
            assert forall|i: int| 0 <= i < b1.len() implies b1[i] == b2[i] by {
                lemma_prefix_index(gb, pos, enc_str_bytes(b1), 1 + i);
                lemma_prefix_index(gb, pos, enc_str_bytes(b2), 1 + i);
            }
        }
    } else if b1.len() < 256 {
        assert(32 <= b2.len() < 256);
        lemma_prefix_index(gb, pos, enc_str_bytes(b1), 1);
        lemma_prefix_index(gb, pos, enc_str_bytes(b2), 1);
        assert(b1.len() == b2.len());
        assert(b1 =~= b2) by {
            assert forall|i: int| 0 <= i < b1.len() implies b1[i] == b2[i] by {
                lemma_prefix_index(gb, pos, enc_str_bytes(b1), 2 + i);
                lemma_prefix_index(gb, pos, enc_str_bytes(b2), 2 + i);
            }
        }
    } else if b1.len() < 65536 {
        assert(256 <= b2.len() < 65536);
        lemma_prefix_index(gb, pos, enc_str_bytes(b1), 1);
        lemma_prefix_index(gb, pos, enc_str_bytes(b2), 1);
        lemma_prefix_index(gb, pos, enc_str_bytes(b1), 2);
        lemma_prefix_index(gb, pos, enc_str_bytes(b2), 2);
        assert(b1.len() == b2.len()) by {
            lemma_be16_value(b1.len() as u16);
            lemma_be16_value(b2.len() as u16);
        }
        assert(b1 =~= b2) by {
            assert forall|i: int| 0 <= i < b1.len() implies b1[i] == b2[i] by {
                lemma_prefix_index(gb, pos, enc_str_bytes(b1), 3 + i);
                lemma_prefix_index(gb, pos, enc_str_bytes(b2), 3 + i);
            }
        }
    } else {
        assert(65536 <= b2.len());
        lemma_prefix_index(gb, pos, enc_str_bytes(b1), 1);
        lemma_prefix_index(gb, pos, enc_str_bytes(b2), 1);
        lemma_prefix_index(gb, pos, enc_str_bytes(b1), 2);
        lemma_prefix_index(gb, pos, enc_str_bytes(b2), 2);
        lemma_prefix_index(gb, pos, enc_str_bytes(b1), 3);
        lemma_prefix_index(gb, pos, enc_str_bytes(b2), 3);
        lemma_prefix_index(gb, pos, enc_str_bytes(b1), 4);
        lemma_prefix_index(gb, pos, enc_str_bytes(b2), 4);
        assert(b1.len() == b2.len()) by {
            lemma_be32_value(b1.len() as u32);
            lemma_be32_value(b2.len() as u32);
        }
        assert(b1 =~= b2) by {
            assert forall|i: int| 0 <= i < b1.len() implies b1[i] == b2[i] by {
                lemma_prefix_index(gb, pos, enc_str_bytes(b1), 5 + i);
                lemma_prefix_index(gb, pos, enc_str_bytes(b2), 5 + i);
            }
        }
    }
    lemma_encode_utf8_injective(s1, s2);
}

/// Parse a kind record at `pos`.
#[verifier::rlimit(100)]
fn parse_kind(bytes: &[u8], pos: usize) -> (r: Option<(Kind, usize)>)
    requires
        pos <= bytes@.len(),
    ensures
        r matches Some((k, end)) ==> kind_ok(k@) && is_prefix_at(
            bytes@,
            pos as int,
            spec_encode_kind(k@),
        ) && end == pos + spec_encode_kind(k@).len(),
        forall|kv: KindView|
            kind_ok(kv) && is_prefix_at(bytes@, pos as int, #[trigger] spec_encode_kind(kv)) ==> (
            r matches Some((k, end)) && k@ == kv && end == pos + spec_encode_kind(kv).len()),
{
    let ghost gb = bytes@;
    proof {
        lemma_lit_tag();
        lemma_lit_limbo();
        lemma_lit_proxy();
        lemma_lit_lobby();
        lemma_lit_minigame();
        lemma_lit_payload();
        lemma_lit_kind();
        assert(enc_fixmap(1) =~= seq![0x81u8]);
        assert(enc_fixmap(2) =~= seq![0x82u8]);
    }
    if let Some(p1) = expect_byte(bytes, pos, 0x81) {
        let p2 = match expect_str(bytes, p1, "tag") {
            Some(p) => p,
            None => {
                proof {
                    assert forall|kv: KindView|
                        kind_ok(kv) && is_prefix_at(gb, pos as int, #[trigger] spec_encode_kind(kv))
                            implies false by {
                        lemma_kind_cases(gb, pos as int, kv);
                        if kv is Minigame {
                            lemma_prefix_index(gb, pos as int, seq![0x82u8], 0);
                            lemma_prefix_index(gb, pos as int, seq![0x81u8], 0);
                        }
                    }
                }
                return None;
            },
        };
        if let Some(p3) = expect_str(bytes, p2, "Limbo") {
            proof {
                lemma_prefix_join(gb, p1 as int, enc_str("tag"@), enc_str("Limbo"@));
                lemma_prefix_join(
                    gb,
                    pos as int,
                    enc_fixmap(1),
                    enc_str("tag"@) + enc_str("Limbo"@),
                );
                assert(spec_encode_kind(KindView::Limbo) =~= enc_fixmap(1) + (enc_str("tag"@)
                    + enc_str("Limbo"@)));
                assert forall|kv: KindView|
                    kind_ok(kv) && is_prefix_at(gb, pos as int, #[trigger] spec_encode_kind(kv))
                        implies kv == KindView::Limbo by {
                    lemma_kind_cases(gb, pos as int, kv);
                    if kv is Minigame {
                        lemma_prefix_index(gb, pos as int, seq![0x82u8], 0);
                        lemma_prefix_index(gb, pos as int, seq![0x81u8], 0);
                    } else {
                        lemma_enc_str_same_pos(gb, p2 as int, "Limbo"@, kind_tag_name(kv));
                    }
                }
            }
            return Some((Kind::Limbo, p3));
        }
        if let Some(p3) = expect_str(bytes, p2, "Proxy") {
            proof {
                lemma_prefix_join(gb, p1 as int, enc_str("tag"@), enc_str("Proxy"@));
                lemma_prefix_join(
                    gb,
                    pos as int,
                    enc_fixmap(1),
                    enc_str("tag"@) + enc_str("Proxy"@),
                );
                assert(spec_encode_kind(KindView::Proxy) =~= enc_fixmap(1) + (enc_str("tag"@)
                    + enc_str("Proxy"@)));
                assert forall|kv: KindView|
                    kind_ok(kv) && is_prefix_at(gb, pos as int, #[trigger] spec_encode_kind(kv))
                        implies kv == KindView::Proxy by {
                    lemma_kind_cases(gb, pos as int, kv);
                    if kv is Minigame {
                        lemma_prefix_index(gb, pos as int, seq![0x82u8], 0);
                        lemma_prefix_index(gb, pos as int, seq![0x81u8], 0);
                    } else {
                        lemma_enc_str_same_pos(gb, p2 as int, "Proxy"@, kind_tag_name(kv));
                    }
                }
            }
            return Some((Kind::Proxy, p3));
        }
        if let Some(p3) = expect_str(bytes, p2, "Lobby") {
            proof {
                lemma_prefix_join(gb, p1 as int, enc_str("tag"@), enc_str("Lobby"@));
                lemma_prefix_join(
                    gb,
                    pos as int,
                    enc_fixmap(1),
                    enc_str("tag"@) + enc_str("Lobby"@),
                );
                assert(spec_encode_kind(KindView::Lobby) =~= enc_fixmap(1) + (enc_str("tag"@)
                    + enc_str("Lobby"@)));
                assert forall|kv: KindView|
                    kind_ok(kv) && is_prefix_at(gb, pos as int, #[trigger] spec_encode_kind(kv))
                        implies kv == KindView::Lobby by {
                    lemma_kind_cases(gb, pos as int, kv);
                    if kv is Minigame {
                        lemma_prefix_index(gb, pos as int, seq![0x82u8], 0);
                        lemma_prefix_index(gb, pos as int, seq![0x81u8], 0);
                    } else {
                        lemma_enc_str_same_pos(gb, p2 as int, "Lobby"@, kind_tag_name(kv));
                    }
                }
            }
            return Some((Kind::Lobby, p3));
        }
        proof {
            assert forall|kv: KindView|
                kind_ok(kv) && is_prefix_at(gb, pos as int, #[trigger] spec_encode_kind(kv))
                    implies false by {
                lemma_kind_cases(gb, pos as int, kv);
                if kv is Minigame {
                    lemma_prefix_index(gb, pos as int, seq![0x82u8], 0);
                    lemma_prefix_index(gb, pos as int, seq![0x81u8], 0);
                }
            }
        }
        None
    } else if let Some(p1) = expect_byte(bytes, pos, 0x82) {
        let p2 = match expect_str(bytes, p1, "tag") {
            Some(p) => p,
            None => {
                proof {
                    assert forall|kv: KindView|
                        kind_ok(kv) && is_prefix_at(gb, pos as int, #[trigger] spec_encode_kind(kv))
                            implies false by {
                        lemma_kind_cases(gb, pos as int, kv);
                        if !(kv is Minigame) {
                            lemma_prefix_index(gb, pos as int, seq![0x81u8], 0);
                            lemma_prefix_index(gb, pos as int, seq![0x82u8], 0);
                        }
                    }
                }
                return None;
            },
        };
        let p3 = match expect_str(bytes, p2, "Minigame") {
            Some(p) => p,
            None => {
                proof {
                    assert forall|kv: KindView|
                        kind_ok(kv) && is_prefix_at(gb, pos as int, #[trigger] spec_encode_kind(kv))
                            implies false by {
                        lemma_kind_cases(gb, pos as int, kv);
                        if !(kv is Minigame) {
                            lemma_prefix_index(gb, pos as int, seq![0x81u8], 0);
                            lemma_prefix_index(gb, pos as int, seq![0x82u8], 0);
                        }
                    }
                }
                return None;
            },
        };
        let p4 = match expect_str(bytes, p3, "payload") {
            Some(p) => p,
            None => {
                proof {
                    assert forall|kv: KindView|
                        kind_ok(kv) && is_prefix_at(gb, pos as int, #[trigger] spec_encode_kind(kv))
                            implies false by {
                        lemma_kind_cases(gb, pos as int, kv);
                        if !(kv is Minigame) {
                            lemma_prefix_index(gb, pos as int, seq![0x81u8], 0);
                            lemma_prefix_index(gb, pos as int, seq![0x82u8], 0);
                        }
                    }
                }
                return None;
            },
        };
        let p5 = match expect_byte(bytes, p4, 0x81) {
            Some(p) => p,
            None => {
                proof {
                    assert forall|kv: KindView|
                        kind_ok(kv) && is_prefix_at(gb, pos as int, #[trigger] spec_encode_kind(kv))
                            implies false by {
                        lemma_kind_cases(gb, pos as int, kv);
                        if !(kv is Minigame) {
                            lemma_prefix_index(gb, pos as int, seq![0x81u8], 0);
                            lemma_prefix_index(gb, pos as int, seq![0x82u8], 0);
                        }
                    }
                }
                return None;
            },
        };
        let p6 = match expect_str(bytes, p5, "kind") {
            Some(p) => p,
            None => {
                proof {
                    assert forall|kv: KindView|
                        kind_ok(kv) && is_prefix_at(gb, pos as int, #[trigger] spec_encode_kind(kv))
                            implies false by {
                        lemma_kind_cases(gb, pos as int, kv);
                        if !(kv is Minigame) {
                            lemma_prefix_index(gb, pos as int, seq![0x81u8], 0);
                            lemma_prefix_index(gb, pos as int, seq![0x82u8], 0);
                        }
                    }
                }
                return None;
            },
        };
        let parsed = parse_str(bytes, p6);
        match parsed {
            Some((mk, end)) => {
                proof {
                    lemma_prefix_join(gb, p5 as int, enc_str("kind"@), enc_str(mk@));
                    lemma_prefix_join(
                        gb,
                        p4 as int,
                        enc_fixmap(1),
                        enc_str("kind"@) + enc_str(mk@),
                    );
                    lemma_prefix_join(
                        gb,
                        p3 as int,
                        enc_str("payload"@),
                        enc_fixmap(1) + (enc_str("kind"@) + enc_str(mk@)),
                    );
                    lemma_prefix_join(
                        gb,
                        p2 as int,
                        enc_str("Minigame"@),
                        enc_str("payload"@) + (enc_fixmap(1) + (enc_str("kind"@) + enc_str(mk@))),
                    );
                    lemma_prefix_join(
                        gb,
                        p1 as int,
                        enc_str("tag"@),
                        enc_str("Minigame"@) + (enc_str("payload"@) + (enc_fixmap(1) + (enc_str(
                            "kind"@,
                        ) + enc_str(mk@)))),
                    );
                    lemma_prefix_join(
                        gb,
                        pos as int,
                        enc_fixmap(2),
                        enc_str("tag"@) + (enc_str("Minigame"@) + (enc_str("payload"@) + (
                        enc_fixmap(1) + (enc_str("kind"@) + enc_str(mk@))))),
                    );
                    assert(spec_encode_kind(KindView::Minigame { kind: mk@ }) =~= enc_fixmap(2) + (
                    enc_str("tag"@) + (enc_str("Minigame"@) + (enc_str("payload"@) + (enc_fixmap(1)
                        + (enc_str("kind"@) + enc_str(mk@)))))));
                    assert forall|kv: KindView|
                        kind_ok(kv) && is_prefix_at(gb, pos as int, #[trigger] spec_encode_kind(kv))
                            implies kv == KindView::Minigame { kind: mk@ } by {
                        lemma_kind_cases(gb, pos as int, kv);
                        if !(kv is Minigame) {
                            lemma_prefix_index(gb, pos as int, seq![0x81u8], 0);
                            lemma_prefix_index(gb, pos as int, seq![0x82u8], 0);
                        }
                        assert(kv is Minigame);
                        lemma_enc_str_same_pos(gb, p6 as int, mk@, kv->Minigame_kind);
                    }
                }
                Some((Kind::Minigame { kind: mk }, end))
            },
            None => {
                proof {
                    assert forall|kv: KindView|
                        kind_ok(kv) && is_prefix_at(gb, pos as int, #[trigger] spec_encode_kind(kv))
                            implies false by {
                        lemma_kind_cases(gb, pos as int, kv);
                        if !(kv is Minigame) {
                            lemma_prefix_index(gb, pos as int, seq![0x81u8], 0);
                            lemma_prefix_index(gb, pos as int, seq![0x82u8], 0);
                        }
                    }
                }
                None
            },
        }
    } else {
        proof {
            assert forall|kv: KindView|
                kind_ok(kv) && is_prefix_at(gb, pos as int, #[trigger] spec_encode_kind(kv))
                    implies false by {
                lemma_kind_cases(gb, pos as int, kv);
                if kv is Minigame {
                    assert(is_prefix_at(gb, pos as int, seq![0x82u8])) by {
                        assert(gb.subrange(pos as int, pos + 1) =~= seq![0x82u8]);
                    }
                } else {
                    assert(is_prefix_at(gb, pos as int, seq![0x81u8])) by {
                        assert(gb.subrange(pos as int, pos + 1) =~= seq![0x81u8]);
                    }
                }
            }
        }
        None
    }
}


/// The view of an optional player.
pub open spec fn player_view(pl: Option<String>) -> Option<Seq<char>> {
    match pl {
        Some(s) => Some(s@),
        None => None,
    }
}

/// An optional player that fits the wire.
pub open spec fn player_ok(plv: Option<Seq<char>>) -> bool {
    match plv {
        Some(s) => str_ok(s),
        None => true,
    }
}

/// Where the pieces of an encoded packet sit, and the whole length.
proof fn lemma_packet_cases(gb: Seq<u8>, pv: PacketView)
    requires
        packet_encodable(pv),
        gb == spec_encode_packet(pv),
    ensures
        is_prefix_at(gb, 0, seq![0x81u8]),
        str_ok(spec_variant_key(pv)),
        is_prefix_at(gb, 1, enc_str(spec_variant_key(pv))),
        is_prefix_at(gb, 1 + enc_str(spec_variant_key(pv)).len() as int, spec_body(pv)),
        gb.len() == 1 + enc_str(spec_variant_key(pv)).len() + spec_body(pv).len(),
{
    assert(is_prefix_at(gb, 0, spec_encode_packet(pv))) by {
        assert(gb.subrange(0, gb.len() as int) =~= gb);
    }
    lemma_split_packet(gb, 0, spec_variant_key(pv), spec_body(pv));
    assert(enc_fixmap(1) =~= seq![0x81u8]);
    match pv {
        PacketView::Authentication { .. } => lemma_lit_authentication(),
        PacketView::Request { .. } => lemma_lit_request(),
        PacketView::LinkServer { .. } => lemma_lit_linkserver(),
        PacketView::UnlinkServer { .. } => lemma_lit_unlinkserver(),
        PacketView::TransportPlayer { .. } => lemma_lit_transportplayer(),
        PacketView::Ping { .. } => lemma_lit_ping(),
        PacketView::Pong { .. } => lemma_lit_pong(),
        PacketView::UpdateActive { .. } => lemma_lit_updateactive(),
    }
}

/// The variant key read from the wire pins the packet's variant key.
proof fn lemma_key_forces(gb: Seq<u8>, pv: PacketView, kvb: Seq<u8>, w: Seq<char>)
    requires
        packet_encodable(pv),
        gb == spec_encode_packet(pv),
        kvb == encode_utf8(w),
        encode_utf8(w).len() < 0x100000000,
        is_prefix_at(gb, 1, enc_str_bytes(kvb)),
    ensures
        spec_variant_key(pv) == w,
{
    lemma_packet_cases(gb, pv);
    assert(enc_str_bytes(kvb) == enc_str(w));
    lemma_enc_str_same_pos(gb, 1, spec_variant_key(pv), w);
}

fn parse_timer_body(bytes: &[u8], pos: usize) -> (r: Option<(i32, usize)>)
    requires
        pos <= bytes@.len(),
    ensures
        r matches Some((t, end)) ==> is_prefix_at(bytes@, pos as int, body_timer(t)) && end == pos
            + body_timer(t).len(),
        forall|t: i32|
            is_prefix_at(bytes@, pos as int, #[trigger] body_timer(t)) ==> (r matches Some(
                (t2, end),
            ) && t2 == t && end == pos + body_timer(t).len()),
{
    let ghost gb = bytes@;
    proof {
        lemma_lit_timer();
        assert(enc_fixmap(1) =~= seq![0x81u8]);
    }
    let p1 = match expect_byte(bytes, pos, 0x81) {
        Some(p) => p,
        None => {
            proof {
                assert forall|t: i32| is_prefix_at(gb, pos as int, #[trigger] body_timer(t))
                    implies false by {
                    lemma_split_body_timer(gb, pos as int, t);
                }
            }
            return None;
        },
    };
    let p2 = match expect_str(bytes, p1, "timer") {
        Some(p) => p,
        None => {
            proof {
                assert forall|t: i32| is_prefix_at(gb, pos as int, #[trigger] body_timer(t))
                    implies false by {
                    lemma_split_body_timer(gb, pos as int, t);
                }
            }
            return None;
        },
    };
    match parse_i32(bytes, p2) {
        Some((t, end)) => {
            proof {
                lemma_prefix_join(gb, p1 as int, enc_str("timer"@), enc_sint(t));
                lemma_prefix_join(gb, pos as int, seq![0x81u8], enc_str("timer"@) + enc_sint(t));
                assert(body_timer(t) =~= seq![0x81u8] + (enc_str("timer"@) + enc_sint(t)));
                assert forall|t2: i32| is_prefix_at(gb, pos as int, #[trigger] body_timer(t2))
                    implies t2 == t && end == pos + body_timer(t2).len() by {
                    lemma_split_body_timer(gb, pos as int, t2);
                }
            }
            Some((t, end))
        },
        None => {
            proof {
                assert forall|t: i32| is_prefix_at(gb, pos as int, #[trigger] body_timer(t))
                    implies false by {
                    lemma_split_body_timer(gb, pos as int, t);
                }
            }
            None
        },
    }
}

fn parse_active_body(bytes: &[u8], pos: usize) -> (r: Option<(bool, usize)>)
    requires
        pos <= bytes@.len(),
    ensures
        r matches Some((a, end)) ==> is_prefix_at(bytes@, pos as int, body_active(a)) && end == pos
            + body_active(a).len(),
        forall|a: bool|
            is_prefix_at(bytes@, pos as int, #[trigger] body_active(a)) ==> (r matches Some(
                (a2, end),
            ) && a2 == a && end == pos + body_active(a).len()),
{
    let ghost gb = bytes@;
    proof {
        lemma_lit_active();
        assert(enc_fixmap(1) =~= seq![0x81u8]);
    }
    let p1 = match expect_byte(bytes, pos, 0x81) {
        Some(p) => p,
        None => {
            proof {
                assert forall|a: bool| is_prefix_at(gb, pos as int, #[trigger] body_active(a))
                    implies false by {
                    lemma_split_body_active(gb, pos as int, a);
                }
            }
            return None;
        },
    };
    let p2 = match expect_str(bytes, p1, "active") {
        Some(p) => p,
        None => {
            proof {
                assert forall|a: bool| is_prefix_at(gb, pos as int, #[trigger] body_active(a))
                    implies false by {
                    lemma_split_body_active(gb, pos as int, a);
                }
            }
            return None;
        },
    };
    match parse_bool(bytes, p2) {
        Some((a, end)) => {
            proof {
                lemma_prefix_join(gb, p1 as int, enc_str("active"@), enc_bool(a));
                lemma_prefix_join(gb, pos as int, seq![0x81u8], enc_str("active"@) + enc_bool(a));
                assert(body_active(a) =~= seq![0x81u8] + (enc_str("active"@) + enc_bool(a)));
                assert forall|a2: bool| is_prefix_at(gb, pos as int, #[trigger] body_active(a2))
                    implies a2 == a && end == pos + body_active(a2).len() by {
                    lemma_split_body_active(gb, pos as int, a2);
                }
            }
            Some((a, end))
        },
        None => {
            proof {
                assert forall|a: bool| is_prefix_at(gb, pos as int, #[trigger] body_active(a))
                    implies false by {
                    lemma_split_body_active(gb, pos as int, a);
                }
            }
            None
        },
    }
}

fn parse_unlink_body(bytes: &[u8], pos: usize) -> (r: Option<(String, usize)>)
    requires
        pos <= bytes@.len(),
    ensures
        r matches Some((n, end)) ==> str_ok(n@) && is_prefix_at(
            bytes@,
            pos as int,
            body_unlink(n@),
        ) && end == pos + body_unlink(n@).len(),
        forall|n: Seq<char>|
            str_ok(n) && is_prefix_at(bytes@, pos as int, #[trigger] body_unlink(n)) ==> (
            r matches Some((n2, end)) && n2@ == n && end == pos + body_unlink(n).len()),
{
    let ghost gb = bytes@;
    proof {
        lemma_lit_name();
        assert(enc_fixmap(1) =~= seq![0x81u8]);
    }
    let p1 = match expect_byte(bytes, pos, 0x81) {
        Some(p) => p,
        None => {
            proof {
                assert forall|n: Seq<char>|
                    str_ok(n) && is_prefix_at(gb, pos as int, #[trigger] body_unlink(n))
                        implies false by {
                    lemma_split_body_unlink(gb, pos as int, n);
                }
            }
            return None;
        },
    };
    let p2 = match expect_str(bytes, p1, "name") {
        Some(p) => p,
        None => {
            proof {
                assert forall|n: Seq<char>|
                    str_ok(n) && is_prefix_at(gb, pos as int, #[trigger] body_unlink(n))
                        implies false by {
                    lemma_split_body_unlink(gb, pos as int, n);
                }
            }
            return None;
        },
    };
    match parse_str(bytes, p2) {
        Some((n, end)) => {
            proof {
                lemma_prefix_join(gb, p1 as int, enc_str("name"@), enc_str(n@));
                lemma_prefix_join(gb, pos as int, seq![0x81u8], enc_str("name"@) + enc_str(n@));
                assert(body_unlink(n@) =~= seq![0x81u8] + (enc_str("name"@) + enc_str(n@)));
                assert forall|n2: Seq<char>|
                    str_ok(n2) && is_prefix_at(gb, pos as int, #[trigger] body_unlink(n2)) implies
                    n2 == n@ && end == pos + body_unlink(n2).len() by {
                    lemma_split_body_unlink(gb, pos as int, n2);
                }
            }
            Some((n, end))
        },
        None => {
            proof {
                assert forall|n: Seq<char>|
                    str_ok(n) && is_prefix_at(gb, pos as int, #[trigger] body_unlink(n))
                        implies false by {
                    lemma_split_body_unlink(gb, pos as int, n);
                }
            }
            None
        },
    }
}

fn parse_transport_body(bytes: &[u8], pos: usize) -> (r: Option<(String, String, usize)>)
    requires
        pos <= bytes@.len(),
    ensures
        r matches Some((pl, to, end)) ==> str_ok(pl@) && str_ok(to@) && is_prefix_at(
            bytes@,
            pos as int,
            body_transport(pl@, to@),
        ) && end == pos + body_transport(pl@, to@).len(),
        forall|pl: Seq<char>, to: Seq<char>|
            str_ok(pl) && str_ok(to) && is_prefix_at(
                bytes@,
                pos as int,
                #[trigger] body_transport(pl, to),
            ) ==> (r matches Some((pl2, to2, end)) && pl2@ == pl && to2@ == to && end == pos
                + body_transport(pl, to).len()),
{
    let ghost gb = bytes@;
    proof {
        lemma_lit_player();
        lemma_lit_to();
        assert(enc_fixmap(2) =~= seq![0x82u8]);
    }
    let p1 = match expect_byte(bytes, pos, 0x82) {
        Some(p) => p,
        None => {
            proof {
                assert forall|pl: Seq<char>, to: Seq<char>|
                    str_ok(pl) && str_ok(to) && is_prefix_at(
                        gb,
                        pos as int,
                        #[trigger] body_transport(pl, to),
                    ) implies false by {
                    lemma_split_body_transport(gb, pos as int, pl, to);
                }
            }
            return None;
        },
    };
    let p2 = match expect_str(bytes, p1, "player") {
        Some(p) => p,
        None => {
            proof {
                assert forall|pl: Seq<char>, to: Seq<char>|
                    str_ok(pl) && str_ok(to) && is_prefix_at(
                        gb,
                        pos as int,
                        #[trigger] body_transport(pl, to),
                    ) implies false by {
                    lemma_split_body_transport(gb, pos as int, pl, to);
                }
            }
            return None;
        },
    };
    let (pl, p3) = match parse_str(bytes, p2) {
        Some(x) => x,
        None => {
            proof {
                assert forall|pl: Seq<char>, to: Seq<char>|
                    str_ok(pl) && str_ok(to) && is_prefix_at(
                        gb,
                        pos as int,
                        #[trigger] body_transport(pl, to),
                    ) implies false by {
                    lemma_split_body_transport(gb, pos as int, pl, to);
                }
            }
            return None;
        },
    };
    let p4 = match expect_str(bytes, p3, "to") {
        Some(p) => p,
        None => {
            proof {
                assert forall|pl2: Seq<char>, to: Seq<char>|
                    str_ok(pl2) && str_ok(to) && is_prefix_at(
                        gb,
                        pos as int,
                        #[trigger] body_transport(pl2, to),
                    ) implies false by {
                    lemma_split_body_transport(gb, pos as int, pl2, to);
                    lemma_enc_str_same_pos(gb, p2 as int, pl@, pl2);
                }
            }
            return None;
        },
    };
    match parse_str(bytes, p4) {
        Some((to, end)) => {
            proof {
                lemma_prefix_join(gb, p3 as int, enc_str("to"@), enc_str(to@));
                lemma_prefix_join(
                    gb,
                    p2 as int,
                    enc_str(pl@),
                    enc_str("to"@) + enc_str(to@),
                );
                lemma_prefix_join(
                    gb,
                    p1 as int,
                    enc_str("player"@),
                    enc_str(pl@) + (enc_str("to"@) + enc_str(to@)),
                );
                lemma_prefix_join(
                    gb,
                    pos as int,
                    seq![0x82u8],
                    enc_str("player"@) + (enc_str(pl@) + (enc_str("to"@) + enc_str(to@))),
                );
                assert(body_transport(pl@, to@) =~= seq![0x82u8] + (enc_str("player"@) + (enc_str(
                    pl@,
                ) + (enc_str("to"@) + enc_str(to@)))));
                assert forall|pl2: Seq<char>, to2: Seq<char>|
                    str_ok(pl2) && str_ok(to2) && is_prefix_at(
                        gb,
                        pos as int,
                        #[trigger] body_transport(pl2, to2),
                    ) implies pl2 == pl@ && to2 == to@ && end == pos + body_transport(
                    pl2,
                    to2,
                ).len() by {
                    lemma_split_body_transport(gb, pos as int, pl2, to2);
                    lemma_enc_str_same_pos(gb, p2 as int, pl@, pl2);
                    lemma_enc_str_same_pos(gb, p4 as int, to@, to2);
                }
            }
            Some((pl, to, end))
        },
        None => {
            proof {
                assert forall|pl2: Seq<char>, to2: Seq<char>|
                    str_ok(pl2) && str_ok(to2) && is_prefix_at(
                        gb,
                        pos as int,
                        #[trigger] body_transport(pl2, to2),
                    ) implies false by {
                    lemma_split_body_transport(gb, pos as int, pl2, to2);
                    lemma_enc_str_same_pos(gb, p2 as int, pl@, pl2);
                }
            }
            None
        },
    }
}

#[verifier::rlimit(100)]
fn parse_link_body(bytes: &[u8], pos: usize) -> (r: Option<(String, String, u16, u16, usize)>)
    requires
        pos <= bytes@.len(),
    ensures
        r matches Some((n, a, po, pr, end)) ==> str_ok(n@) && str_ok(a@) && is_prefix_at(
            bytes@,
            pos as int,
            body_link(n@, a@, po, pr),
        ) && end == pos + body_link(n@, a@, po, pr).len(),
        forall|n: Seq<char>, a: Seq<char>, po: u16, pr: u16|
            str_ok(n) && str_ok(a) && is_prefix_at(
                bytes@,
                pos as int,
                #[trigger] body_link(n, a, po, pr),
            ) ==> (r matches Some((n2, a2, po2, pr2, end)) && n2@ == n && a2@ == a && po2 == po
                && pr2 == pr && end == pos + body_link(n, a, po, pr).len()),
{
    let ghost gb = bytes@;
    proof {
        lemma_lit_name();
        lemma_lit_address();
        lemma_lit_port();
        lemma_lit_priority();
        assert(enc_fixmap(4) =~= seq![0x84u8]);
    }
    let p1 = match expect_byte(bytes, pos, 0x84) {
        Some(p) => p,
        None => {
            proof {
                assert forall|n: Seq<char>, a: Seq<char>, po: u16, pr: u16|
                    str_ok(n) && str_ok(a) && is_prefix_at(
                        gb,
                        pos as int,
                        #[trigger] body_link(n, a, po, pr),
                    ) implies false by {
                    lemma_split_body_link(gb, pos as int, n, a, po, pr);
                }
            }
            return None;
        },
    };
    let p2 = match expect_str(bytes, p1, "name") {
        Some(p) => p,
        None => {
            proof {
                assert forall|n: Seq<char>, a: Seq<char>, po: u16, pr: u16|
                    str_ok(n) && str_ok(a) && is_prefix_at(
                        gb,
                        pos as int,
                        #[trigger] body_link(n, a, po, pr),
                    ) implies false by {
                    lemma_split_body_link(gb, pos as int, n, a, po, pr);
                }
            }
            return None;
        },
    };
    let (n, p3) = match parse_str(bytes, p2) {
        Some(x) => x,
        None => {
            proof {
                assert forall|n: Seq<char>, a: Seq<char>, po: u16, pr: u16|
                    str_ok(n) && str_ok(a) && is_prefix_at(
                        gb,
                        pos as int,
                        #[trigger] body_link(n, a, po, pr),
                    ) implies false by {
                    lemma_split_body_link(gb, pos as int, n, a, po, pr);
                }
            }
            return None;
        },
    };
    let p4 = match expect_str(bytes, p3, "address") {
        Some(p) => p,
        None => {
            proof {
                assert forall|n2: Seq<char>, a: Seq<char>, po: u16, pr: u16|
                    str_ok(n2) && str_ok(a) && is_prefix_at(
                        gb,
                        pos as int,
                        #[trigger] body_link(n2, a, po, pr),
                    ) implies false by {
                    lemma_split_body_link(gb, pos as int, n2, a, po, pr);
                    lemma_enc_str_same_pos(gb, p2 as int, n@, n2);
                }
            }
            return None;
        },
    };
    let (a, p5) = match parse_str(bytes, p4) {
        Some(x) => x,
        None => {
            proof {
                assert forall|n2: Seq<char>, a: Seq<char>, po: u16, pr: u16|
                    str_ok(n2) && str_ok(a) && is_prefix_at(
                        gb,
                        pos as int,
                        #[trigger] body_link(n2, a, po, pr),
                    ) implies false by {
                    lemma_split_body_link(gb, pos as int, n2, a, po, pr);
                    lemma_enc_str_same_pos(gb, p2 as int, n@, n2);
                }
            }
            return None;
        },
    };
    let p6 = match expect_str(bytes, p5, "port") {
        Some(p) => p,
        None => {
            proof {
                assert forall|n2: Seq<char>, a2: Seq<char>, po: u16, pr: u16|
                    str_ok(n2) && str_ok(a2) && is_prefix_at(
                        gb,
                        pos as int,
                        #[trigger] body_link(n2, a2, po, pr),
                    ) implies false by {
                    lemma_split_body_link(gb, pos as int, n2, a2, po, pr);
                    lemma_enc_str_same_pos(gb, p2 as int, n@, n2);
                    lemma_enc_str_same_pos(gb, p4 as int, a@, a2);
                }
            }
            return None;
        },
    };
    let (po, p7) = match parse_u16(bytes, p6) {
        Some(x) => x,
        None => {
            proof {
                assert forall|n2: Seq<char>, a2: Seq<char>, po: u16, pr: u16|
                    str_ok(n2) && str_ok(a2) && is_prefix_at(
                        gb,
                        pos as int,
                        #[trigger] body_link(n2, a2, po, pr),
                    ) implies false by {
                    lemma_split_body_link(gb, pos as int, n2, a2, po, pr);
                    lemma_enc_str_same_pos(gb, p2 as int, n@, n2);
                    lemma_enc_str_same_pos(gb, p4 as int, a@, a2);
                }
            }
            return None;
        },
    };
    let p8 = match expect_str(bytes, p7, "priority") {
        Some(p) => p,
        None => {
            proof {
                assert forall|n2: Seq<char>, a2: Seq<char>, po2: u16, pr: u16|
                    str_ok(n2) && str_ok(a2) && is_prefix_at(
                        gb,
                        pos as int,
                        #[trigger] body_link(n2, a2, po2, pr),
                    ) implies false by {
                    lemma_split_body_link(gb, pos as int, n2, a2, po2, pr);
                    lemma_enc_str_same_pos(gb, p2 as int, n@, n2);
                    lemma_enc_str_same_pos(gb, p4 as int, a@, a2);
                }
            }
            return None;
        },
    };
    match parse_u16(bytes, p8) {
        Some((pr, end)) => {
            proof {
                lemma_prefix_join(gb, p7 as int, enc_str("priority"@), enc_uint(pr));
                lemma_prefix_join(
                    gb,
                    p6 as int,
                    enc_uint(po),
                    enc_str("priority"@) + enc_uint(pr),
                );
                lemma_prefix_join(
                    gb,
                    p5 as int,
                    enc_str("port"@),
                    enc_uint(po) + (enc_str("priority"@) + enc_uint(pr)),
                );
                lemma_prefix_join(
                    gb,
                    p4 as int,
                    enc_str(a@),
                    enc_str("port"@) + (enc_uint(po) + (enc_str("priority"@) + enc_uint(pr))),
                );
                lemma_prefix_join(
                    gb,
                    p3 as int,
                    enc_str("address"@),
                    enc_str(a@) + (enc_str("port"@) + (enc_uint(po) + (enc_str("priority"@)
                        + enc_uint(pr)))),
                );
                lemma_prefix_join(
                    gb,
                    p2 as int,
                    enc_str(n@),
                    enc_str("address"@) + (enc_str(a@) + (enc_str("port"@) + (enc_uint(po) + (
                    enc_str("priority"@) + enc_uint(pr))))),
                );
                lemma_prefix_join(
                    gb,
                    p1 as int,
                    enc_str("name"@),
                    enc_str(n@) + (enc_str("address"@) + (enc_str(a@) + (enc_str("port"@) + (
                    enc_uint(po) + (enc_str("priority"@) + enc_uint(pr)))))),
                );
                lemma_prefix_join(
                    gb,
                    pos as int,
                    seq![0x84u8],
                    enc_str("name"@) + (enc_str(n@) + (enc_str("address"@) + (enc_str(a@) + (
                    enc_str("port"@) + (enc_uint(po) + (enc_str("priority"@) + enc_uint(pr))))))),
                );
                assert(body_link(n@, a@, po, pr) =~= seq![0x84u8] + (enc_str("name"@) + (enc_str(
                    n@,
                ) + (enc_str("address"@) + (enc_str(a@) + (enc_str("port"@) + (enc_uint(po) + (
                enc_str("priority"@) + enc_uint(pr)))))))));
                assert forall|n2: Seq<char>, a2: Seq<char>, po2: u16, pr2: u16|
                    str_ok(n2) && str_ok(a2) && is_prefix_at(
                        gb,
                        pos as int,
                        #[trigger] body_link(n2, a2, po2, pr2),
                    ) implies n2 == n@ && a2 == a@ && po2 == po && pr2 == pr && end == pos
                    + body_link(n2, a2, po2, pr2).len() by {
                    lemma_split_body_link(gb, pos as int, n2, a2, po2, pr2);
                    lemma_enc_str_same_pos(gb, p2 as int, n@, n2);
                    lemma_enc_str_same_pos(gb, p4 as int, a@, a2);
                }
            }
            Some((n, a, po, pr, end))
        },
        None => {
            proof {
                assert forall|n2: Seq<char>, a2: Seq<char>, po2: u16, pr2: u16|
                    str_ok(n2) && str_ok(a2) && is_prefix_at(
                        gb,
                        pos as int,
                        #[trigger] body_link(n2, a2, po2, pr2),
                    ) implies false by {
                    lemma_split_body_link(gb, pos as int, n2, a2, po2, pr2);
                    lemma_enc_str_same_pos(gb, p2 as int, n@, n2);
                    lemma_enc_str_same_pos(gb, p4 as int, a@, a2);
                }
            }
            None
        },
    }
}

#[verifier::rlimit(100)]
fn parse_auth_body(bytes: &[u8], pos: usize) -> (r: Option<(String, Kind, String, usize)>)
    requires
        pos <= bytes@.len(),
    ensures
        r matches Some((n, k, i, end)) ==> str_ok(n@) && kind_ok(k@) && str_ok(i@) && is_prefix_at(
            bytes@,
            pos as int,
            body_auth(n@, k@, i@),
        ) && end == pos + body_auth(n@, k@, i@).len(),
        forall|n: Seq<char>, kv: KindView, i: Seq<char>|
            str_ok(n) && kind_ok(kv) && str_ok(i) && is_prefix_at(
                bytes@,
                pos as int,
                #[trigger] body_auth(n, kv, i),
            ) ==> (r matches Some((n2, k2, i2, end)) && n2@ == n && k2@ == kv && i2@ == i && end
                == pos + body_auth(n, kv, i).len()),
{
    let ghost gb = bytes@;
    proof {
        lemma_lit_name();
        lemma_lit_kind();
        lemma_lit_ip();
        assert(enc_fixmap(3) =~= seq![0x83u8]);
    }
    let p1 = match expect_byte(bytes, pos, 0x83) {
        Some(p) => p,
        None => {
            proof {
                assert forall|n: Seq<char>, kv: KindView, i: Seq<char>|
                    str_ok(n) && kind_ok(kv) && str_ok(i) && is_prefix_at(
                        gb,
                        pos as int,
                        #[trigger] body_auth(n, kv, i),
                    ) implies false by {
                    lemma_split_body_auth(gb, pos as int, n, kv, i);
                }
            }
            return None;
        },
    };
    let p2 = match expect_str(bytes, p1, "name") {
        Some(p) => p,
        None => {
            proof {
                assert forall|n: Seq<char>, kv: KindView, i: Seq<char>|
                    str_ok(n) && kind_ok(kv) && str_ok(i) && is_prefix_at(
                        gb,
                        pos as int,
                        #[trigger] body_auth(n, kv, i),
                    ) implies false by {
                    lemma_split_body_auth(gb, pos as int, n, kv, i);
                }
            }
            return None;
        },
    };
    let (n, p3) = match parse_str(bytes, p2) {
        Some(x) => x,
        None => {
            proof {
                assert forall|n: Seq<char>, kv: KindView, i: Seq<char>|
                    str_ok(n) && kind_ok(kv) && str_ok(i) && is_prefix_at(
                        gb,
                        pos as int,
                        #[trigger] body_auth(n, kv, i),
                    ) implies false by {
                    lemma_split_body_auth(gb, pos as int, n, kv, i);
                }
            }
            return None;
        },
    };
    let p4 = match expect_str(bytes, p3, "kind") {
        Some(p) => p,
        None => {
            proof {
                assert forall|n2: Seq<char>, kv: KindView, i: Seq<char>|
                    str_ok(n2) && kind_ok(kv) && str_ok(i) && is_prefix_at(
                        gb,
                        pos as int,
                        #[trigger] body_auth(n2, kv, i),
                    ) implies false by {
                    lemma_split_body_auth(gb, pos as int, n2, kv, i);
                    lemma_enc_str_same_pos(gb, p2 as int, n@, n2);
                }
            }
            return None;
        },
    };
    let (k, p5) = match parse_kind(bytes, p4) {
        Some(x) => x,
        None => {
            proof {
                assert forall|n2: Seq<char>, kv: KindView, i: Seq<char>|
                    str_ok(n2) && kind_ok(kv) && str_ok(i) && is_prefix_at(
                        gb,
                        pos as int,
                        #[trigger] body_auth(n2, kv, i),
                    ) implies false by {
                    lemma_split_body_auth(gb, pos as int, n2, kv, i);
                    lemma_enc_str_same_pos(gb, p2 as int, n@, n2);
                }
            }
            return None;
        },
    };
    let p6 = match expect_str(bytes, p5, "ip") {
        Some(p) => p,
        None => {
            proof {
                assert forall|n2: Seq<char>, kv: KindView, i: Seq<char>|
                    str_ok(n2) && kind_ok(kv) && str_ok(i) && is_prefix_at(
                        gb,
                        pos as int,
                        #[trigger] body_auth(n2, kv, i),
                    ) implies false by {
                    lemma_split_body_auth(gb, pos as int, n2, kv, i);
                    lemma_enc_str_same_pos(gb, p2 as int, n@, n2);
                }
            }
            return None;
        },
    };
    match parse_str(bytes, p6) {
        Some((i, end)) => {
            proof {
                lemma_prefix_join(gb, p5 as int, enc_str("ip"@), enc_str(i@));
                lemma_prefix_join(
                    gb,
                    p4 as int,
                    spec_encode_kind(k@),
                    enc_str("ip"@) + enc_str(i@),
                );
                lemma_prefix_join(
                    gb,
                    p3 as int,
                    enc_str("kind"@),
                    spec_encode_kind(k@) + (enc_str("ip"@) + enc_str(i@)),
                );
                lemma_prefix_join(
                    gb,
                    p2 as int,
                    enc_str(n@),
                    enc_str("kind"@) + (spec_encode_kind(k@) + (enc_str("ip"@) + enc_str(i@))),
                );
                lemma_prefix_join(
                    gb,
                    p1 as int,
                    enc_str("name"@),
                    enc_str(n@) + (enc_str("kind"@) + (spec_encode_kind(k@) + (enc_str("ip"@)
                        + enc_str(i@)))),
                );
                lemma_prefix_join(
                    gb,
                    pos as int,
                    seq![0x83u8],
                    enc_str("name"@) + (enc_str(n@) + (enc_str("kind"@) + (spec_encode_kind(k@) + (
                    enc_str("ip"@) + enc_str(i@))))),
                );
                assert(body_auth(n@, k@, i@) =~= seq![0x83u8] + (enc_str("name"@) + (enc_str(n@)
                    + (enc_str("kind"@) + (spec_encode_kind(k@) + (enc_str("ip"@) + enc_str(
                    i@,
                )))))));
                assert forall|n2: Seq<char>, kv: KindView, i2: Seq<char>|
                    str_ok(n2) && kind_ok(kv) && str_ok(i2) && is_prefix_at(
                        gb,
                        pos as int,
                        #[trigger] body_auth(n2, kv, i2),
                    ) implies n2 == n@ && kv == k@ && i2 == i@ && end == pos + body_auth(
                    n2,
                    kv,
                    i2,
                ).len() by {
                    lemma_split_body_auth(gb, pos as int, n2, kv, i2);
                    lemma_enc_str_same_pos(gb, p2 as int, n@, n2);
                    assert(kv == k@);
                    lemma_enc_str_same_pos(gb, p6 as int, i@, i2);
                }
            }
            Some((n, k, i, end))
        },
        None => {
            proof {
                assert forall|n2: Seq<char>, kv: KindView, i2: Seq<char>|
                    str_ok(n2) && kind_ok(kv) && str_ok(i2) && is_prefix_at(
                        gb,
                        pos as int,
                        #[trigger] body_auth(n2, kv, i2),
                    ) implies false by {
                    lemma_split_body_auth(gb, pos as int, n2, kv, i2);
                    lemma_enc_str_same_pos(gb, p2 as int, n@, n2);
                    assert(kv == k@);
                }
            }
            None
        },
    }
}

#[verifier::rlimit(100)]
fn parse_request_body(bytes: &[u8], pos: usize) -> (r: Option<(Kind, Option<String>, usize)>)
    requires
        pos <= bytes@.len(),
    ensures
        r matches Some((k, pl, end)) ==> kind_ok(k@) && (pl matches Some(s) ==> str_ok(s@))
            && is_prefix_at(bytes@, pos as int, body_request(k@, player_view(pl))) && end == pos
            + body_request(k@, player_view(pl)).len(),
        forall|kv: KindView, plv: Option<Seq<char>>|
            kind_ok(kv) && player_ok(plv) && is_prefix_at(
                bytes@,
                pos as int,
                #[trigger] body_request(kv, plv),
            ) ==> (r matches Some((k, pl, end)) && k@ == kv && player_view(pl) == plv && end == pos
                + body_request(kv, plv).len()),
{
    let ghost gb = bytes@;
    proof {
        lemma_lit_kind();
        lemma_lit_player();
        assert(enc_fixmap(2) =~= seq![0x82u8]);
        assert(enc_nil() =~= seq![0xc0u8]);
    }
    let p1 = match expect_byte(bytes, pos, 0x82) {
        Some(p) => p,
        None => {
            proof {
                assert forall|kv: KindView, plv: Option<Seq<char>>|
                    kind_ok(kv) && player_ok(plv) && is_prefix_at(
                        gb,
                        pos as int,
                        #[trigger] body_request(kv, plv),
                    ) implies false by {
                    lemma_split_body_request(gb, pos as int, kv, player_tail(plv));
                }
            }
            return None;
        },
    };
    let p2 = match expect_str(bytes, p1, "kind") {
        Some(p) => p,
        None => {
            proof {
                assert forall|kv: KindView, plv: Option<Seq<char>>|
                    kind_ok(kv) && player_ok(plv) && is_prefix_at(
                        gb,
                        pos as int,
                        #[trigger] body_request(kv, plv),
                    ) implies false by {
                    lemma_split_body_request(gb, pos as int, kv, player_tail(plv));
                }
            }
            return None;
        },
    };
    let (k, p3) = match parse_kind(bytes, p2) {
        Some(x) => x,
        None => {
            proof {
                assert forall|kv: KindView, plv: Option<Seq<char>>|
                    kind_ok(kv) && player_ok(plv) && is_prefix_at(
                        gb,
                        pos as int,
                        #[trigger] body_request(kv, plv),
                    ) implies false by {
                    lemma_split_body_request(gb, pos as int, kv, player_tail(plv));
                }
            }
            return None;
        },
    };
    let p4 = match expect_str(bytes, p3, "player") {
        Some(p) => p,
        None => {
            proof {
                assert forall|kv: KindView, plv: Option<Seq<char>>|
                    kind_ok(kv) && player_ok(plv) && is_prefix_at(
                        gb,
                        pos as int,
                        #[trigger] body_request(kv, plv),
                    ) implies false by {
                    lemma_split_body_request(gb, pos as int, kv, player_tail(plv));
                    assert(kv == k@);
                }
            }
            return None;
        },
    };
    // the player is either nil or a string
    if let Some(end) = expect_byte(bytes, p4, 0xc0) {
        proof {
            lemma_prefix_join(gb, p3 as int, enc_str("player"@), enc_nil());
            lemma_prefix_join(
                gb,
                p2 as int,
                spec_encode_kind(k@),
                enc_str("player"@) + enc_nil(),
            );
            lemma_prefix_join(
                gb,
                p1 as int,
                enc_str("kind"@),
                spec_encode_kind(k@) + (enc_str("player"@) + enc_nil()),
            );
            lemma_prefix_join(
                gb,
                pos as int,
                seq![0x82u8],
                enc_str("kind"@) + (spec_encode_kind(k@) + (enc_str("player"@) + enc_nil())),
            );
            assert(enc_nil() =~= seq![0xc0u8]);
            assert(body_request(k@, None) =~= seq![0x82u8] + (enc_str("kind"@) + (spec_encode_kind(
                k@,
            ) + (enc_str("player"@) + enc_nil()))));
            assert forall|kv: KindView, plv: Option<Seq<char>>|
                kind_ok(kv) && player_ok(plv) && is_prefix_at(
                    gb,
                    pos as int,
                    #[trigger] body_request(kv, plv),
                ) implies kv == k@ && plv is None && end == pos + body_request(kv, plv).len() by {
                lemma_split_body_request(gb, pos as int, kv, player_tail(plv));
                assert(kv == k@);
                match plv {
                    Some(s) => {
                        lemma_prefix_index(gb, p4 as int, enc_str(s), 0);
                        lemma_prefix_index(gb, p4 as int, seq![0xc0u8], 0);
                    },
                    None => {},
                }
            }
        }
        return Some((k, None, end));
    }
    match parse_str(bytes, p4) {
        Some((s, end)) => {
            proof {
                lemma_prefix_join(gb, p3 as int, enc_str("player"@), enc_str(s@));
                lemma_prefix_join(
                    gb,
                    p2 as int,
                    spec_encode_kind(k@),
                    enc_str("player"@) + enc_str(s@),
                );
                lemma_prefix_join(
                    gb,
                    p1 as int,
                    enc_str("kind"@),
                    spec_encode_kind(k@) + (enc_str("player"@) + enc_str(s@)),
                );
                lemma_prefix_join(
                    gb,
                    pos as int,
                    seq![0x82u8],
                    enc_str("kind"@) + (spec_encode_kind(k@) + (enc_str("player"@) + enc_str(
                        s@,
                    ))),
                );
                assert(body_request(k@, Some(s@)) =~= seq![0x82u8] + (enc_str("kind"@) + (
                spec_encode_kind(k@) + (enc_str("player"@) + enc_str(s@)))));
                assert forall|kv: KindView, plv: Option<Seq<char>>|
                    kind_ok(kv) && player_ok(plv) && is_prefix_at(
                        gb,
                        pos as int,
                        #[trigger] body_request(kv, plv),
                    ) implies kv == k@ && plv == Some(s@) && end == pos + body_request(
                    kv,
                    plv,
                ).len() by {
                    lemma_split_body_request(gb, pos as int, kv, player_tail(plv));
                    assert(kv == k@);
                    match plv {
                        Some(s2) => {
                            lemma_enc_str_same_pos(gb, p4 as int, s@, s2);
                        },
                        None => {
                            assert(is_prefix_at(gb, p4 as int, enc_nil()));
                            assert(is_prefix_at(gb, p4 as int, enc_str(s@)));
                            lemma_prefix_index(gb, p4 as int, enc_nil(), 0);
                            lemma_prefix_index(gb, p4 as int, enc_str(s@), 0);
                        },
                    }
                }
            }
            Some((k, Some(s), end))
        },
        None => {
            proof {
                assert forall|kv: KindView, plv: Option<Seq<char>>|
                    kind_ok(kv) && player_ok(plv) && is_prefix_at(
                        gb,
                        pos as int,
                        #[trigger] body_request(kv, plv),
                    ) implies false by {
                    lemma_split_body_request(gb, pos as int, kv, player_tail(plv));
                    assert(kv == k@);
                    match plv {
                        Some(s2) => {},
                        None => {
                            lemma_prefix_index(gb, p4 as int, enc_nil(), 0);
                        },
                    }
                }
            }
            None
        },
    }
}

/// Decode one packet from an exact payload. Exact in both directions: it
/// returns `Ok(p)` if and only if `bytes` is precisely the wire form of
/// `p`; anything else — truncated or oversized input, a non-compact value,
/// an unknown variant or kind, trailing bytes — is an error. Together with
/// [`encode_packet`], decoding an encoded packet returns the packet itself.
#[verifier::rlimit(100)]
pub fn decode_packet(bytes: &[u8]) -> (r: Result<Packet, DecodeError>)
    ensures
        r matches Ok(p) ==> packet_encodable(p@) && bytes@ == spec_encode_packet(p@),
        forall|pv: PacketView|
            packet_encodable(pv) && bytes@ == #[trigger] spec_encode_packet(pv) ==> (r matches Ok(
                p,
            ) && p@ == pv),
{
    let ghost gb = bytes@;
    proof {
        lemma_lit_authentication();
        lemma_lit_request();
        lemma_lit_linkserver();
        lemma_lit_unlinkserver();
        lemma_lit_transportplayer();
        lemma_lit_ping();
        lemma_lit_pong();
        lemma_lit_updateactive();
        assert(enc_fixmap(1) =~= seq![0x81u8]);
    }
    if expect_byte(bytes, 0, 0x81).is_none() {
        proof {
            assert forall|pv: PacketView|
                packet_encodable(pv) && gb == #[trigger] spec_encode_packet(pv) implies false by {
                lemma_packet_cases(gb, pv);
            }
        }
        return Err(DecodeError::Malformed);
    }
    let parsed_key = parse_str_bytes(bytes, 1);
    proof {
        assert forall|pv: PacketView|
            packet_encodable(pv) && gb == #[trigger] spec_encode_packet(pv) implies is_prefix_at(
            gb,
            1,
            enc_str_bytes(encode_utf8(spec_variant_key(pv))),
        ) && encode_utf8(spec_variant_key(pv)).len() < 0x100000000 by {
            lemma_packet_cases(gb, pv);
        }
    }
    let (kvb, body_pos) = match parsed_key {
        Some(x) => x,
        None => {
            return Err(DecodeError::Malformed);
        },
    };
    if bytes_eq(kvb.as_slice(), "Authentication".as_bytes()) {
        match parse_auth_body(bytes, body_pos) {
            Some((name, kind, ip, end)) if end == bytes.len() => {
                let p = Packet::Authentication { name, kind, ip };
                proof {
                    decode_sound(gb, p@, kvb@, body_pos as int);
                    assert forall|pv: PacketView|
                        packet_encodable(pv) && gb == #[trigger] spec_encode_packet(pv) implies p@
                        == pv by {
                        lemma_key_forces(gb, pv, kvb@, "Authentication"@);
                        lemma_packet_cases(gb, pv);
                    }
                }
                Ok(p)
            },
            _ => {
                proof {
                    assert forall|pv: PacketView|
                        packet_encodable(pv) && gb == #[trigger] spec_encode_packet(pv)
                            implies false by {
                        lemma_key_forces(gb, pv, kvb@, "Authentication"@);
                        lemma_packet_cases(gb, pv);
                    }
                }
                Err(DecodeError::Malformed)
            },
        }
    } else if bytes_eq(kvb.as_slice(), "Request".as_bytes()) {
        match parse_request_body(bytes, body_pos) {
            Some((kind, player, end)) if end == bytes.len() => {
                let p = Packet::Request { kind, player };
                proof {
                    decode_sound(gb, p@, kvb@, body_pos as int);
                    assert forall|pv: PacketView|
                        packet_encodable(pv) && gb == #[trigger] spec_encode_packet(pv) implies p@
                        == pv by {
                        lemma_key_forces(gb, pv, kvb@, "Request"@);
                        lemma_packet_cases(gb, pv);
                    }
                }
                Ok(p)
            },
            _ => {
                proof {
                    assert forall|pv: PacketView|
                        packet_encodable(pv) && gb == #[trigger] spec_encode_packet(pv)
                            implies false by {
                        lemma_key_forces(gb, pv, kvb@, "Request"@);
                        lemma_packet_cases(gb, pv);
                    }
                }
                Err(DecodeError::Malformed)
            },
        }
    } else if bytes_eq(kvb.as_slice(), "LinkServer".as_bytes()) {
        match parse_link_body(bytes, body_pos) {
            Some((name, address, port, priority, end)) if end == bytes.len() => {
                let p = Packet::LinkServer { name, address, port, priority };
                proof {
                    decode_sound(gb, p@, kvb@, body_pos as int);
                    assert forall|pv: PacketView|
                        packet_encodable(pv) && gb == #[trigger] spec_encode_packet(pv) implies p@
                        == pv by {
                        lemma_key_forces(gb, pv, kvb@, "LinkServer"@);
                        lemma_packet_cases(gb, pv);
                    }
                }
                Ok(p)
            },
            _ => {
                proof {
                    assert forall|pv: PacketView|
                        packet_encodable(pv) && gb == #[trigger] spec_encode_packet(pv)
                            implies false by {
                        lemma_key_forces(gb, pv, kvb@, "LinkServer"@);
                        lemma_packet_cases(gb, pv);
                    }
                }
                Err(DecodeError::Malformed)
            },
        }
    } else if bytes_eq(kvb.as_slice(), "UnlinkServer".as_bytes()) {
        match parse_unlink_body(bytes, body_pos) {
            Some((name, end)) if end == bytes.len() => {
                let p = Packet::UnlinkServer { name };
                proof {
                    decode_sound(gb, p@, kvb@, body_pos as int);
                    assert forall|pv: PacketView|
                        packet_encodable(pv) && gb == #[trigger] spec_encode_packet(pv) implies p@
                        == pv by {
                        lemma_key_forces(gb, pv, kvb@, "UnlinkServer"@);
                        lemma_packet_cases(gb, pv);
                    }
                }
                Ok(p)
            },
            _ => {
                proof {
                    assert forall|pv: PacketView|
                        packet_encodable(pv) && gb == #[trigger] spec_encode_packet(pv)
                            implies false by {
                        lemma_key_forces(gb, pv, kvb@, "UnlinkServer"@);
                        lemma_packet_cases(gb, pv);
                    }
                }
                Err(DecodeError::Malformed)
            },
        }
    } else if bytes_eq(kvb.as_slice(), "TransportPlayer".as_bytes()) {
        match parse_transport_body(bytes, body_pos) {
            Some((player, to, end)) if end == bytes.len() => {
                let p = Packet::TransportPlayer { player, to };
                proof {
                    decode_sound(gb, p@, kvb@, body_pos as int);
                    assert forall|pv: PacketView|
                        packet_encodable(pv) && gb == #[trigger] spec_encode_packet(pv) implies p@
                        == pv by {
                        lemma_key_forces(gb, pv, kvb@, "TransportPlayer"@);
                        lemma_packet_cases(gb, pv);
                    }
                }
                Ok(p)
            },
            _ => {
                proof {
                    assert forall|pv: PacketView|
                        packet_encodable(pv) && gb == #[trigger] spec_encode_packet(pv)
                            implies false by {
                        lemma_key_forces(gb, pv, kvb@, "TransportPlayer"@);
                        lemma_packet_cases(gb, pv);
                    }
                }
                Err(DecodeError::Malformed)
            },
        }
    } else if bytes_eq(kvb.as_slice(), "Ping".as_bytes()) {
        match parse_timer_body(bytes, body_pos) {
            Some((timer, end)) if end == bytes.len() => {
                let p = Packet::Ping { timer };
                proof {
                    decode_sound(gb, p@, kvb@, body_pos as int);
                    assert forall|pv: PacketView|
                        packet_encodable(pv) && gb == #[trigger] spec_encode_packet(pv) implies p@
                        == pv by {
                        lemma_key_forces(gb, pv, kvb@, "Ping"@);
                        lemma_packet_cases(gb, pv);
                    }
                }
                Ok(p)
            },
            _ => {
                proof {
                    assert forall|pv: PacketView|
                        packet_encodable(pv) && gb == #[trigger] spec_encode_packet(pv)
                            implies false by {
                        lemma_key_forces(gb, pv, kvb@, "Ping"@);
                        lemma_packet_cases(gb, pv);
                    }
                }
                Err(DecodeError::Malformed)
            },
        }
    } else if bytes_eq(kvb.as_slice(), "Pong".as_bytes()) {
        match parse_timer_body(bytes, body_pos) {
            Some((timer, end)) if end == bytes.len() => {
                let p = Packet::Pong { timer };
                proof {
                    decode_sound(gb, p@, kvb@, body_pos as int);
                    assert forall|pv: PacketView|
                        packet_encodable(pv) && gb == #[trigger] spec_encode_packet(pv) implies p@
                        == pv by {
                        lemma_key_forces(gb, pv, kvb@, "Pong"@);
                        lemma_packet_cases(gb, pv);
                    }
                }
                Ok(p)
            },
            _ => {
                proof {
                    assert forall|pv: PacketView|
                        packet_encodable(pv) && gb == #[trigger] spec_encode_packet(pv)
                            implies false by {
                        lemma_key_forces(gb, pv, kvb@, "Pong"@);
                        lemma_packet_cases(gb, pv);
                    }
                }
                Err(DecodeError::Malformed)
            },
        }
    } else if bytes_eq(kvb.as_slice(), "UpdateActive".as_bytes()) {
        match parse_active_body(bytes, body_pos) {
            Some((active, end)) if end == bytes.len() => {
                let p = Packet::UpdateActive { active };
                proof {
                    decode_sound(gb, p@, kvb@, body_pos as int);
                    assert forall|pv: PacketView|
                        packet_encodable(pv) && gb == #[trigger] spec_encode_packet(pv) implies p@
                        == pv by {
                        lemma_key_forces(gb, pv, kvb@, "UpdateActive"@);
                        lemma_packet_cases(gb, pv);
                    }
                }
                Ok(p)
            },
            _ => {
                proof {
                    assert forall|pv: PacketView|
                        packet_encodable(pv) && gb == #[trigger] spec_encode_packet(pv)
                            implies false by {
                        lemma_key_forces(gb, pv, kvb@, "UpdateActive"@);
                        lemma_packet_cases(gb, pv);
                    }
                }
                Err(DecodeError::Malformed)
            },
        }
    } else {
        proof {
            assert forall|pv: PacketView|
                packet_encodable(pv) && gb == #[trigger] spec_encode_packet(pv) implies false by {
                lemma_packet_cases(gb, pv);
                assert(kvb@ == encode_utf8(spec_variant_key(pv)));
            }
        }
        Err(DecodeError::Malformed)
    }
}

/// The returned packet's encoding is exactly the input: glue for each
/// success arm of [`decode_packet`].
proof fn decode_sound(gb: Seq<u8>, pv: PacketView, kvb: Seq<u8>, body_pos: int)
    requires
        packet_encodable(pv),
        is_prefix_at(gb, 0, seq![0x81u8]),
        is_prefix_at(gb, 1, enc_str_bytes(kvb)),
        kvb == encode_utf8(spec_variant_key(pv)),
        body_pos == 1 + enc_str_bytes(kvb).len(),
        is_prefix_at(gb, body_pos, spec_body(pv)),
        gb.len() == body_pos + spec_body(pv).len(),
    ensures
        gb == spec_encode_packet(pv),
{
    lemma_prefix_join(gb, 1, enc_str_bytes(kvb), spec_body(pv));
    lemma_prefix_join(gb, 0, seq![0x81u8], enc_str_bytes(kvb) + spec_body(pv));
    assert(enc_fixmap(1) =~= seq![0x81u8]);
    assert(spec_encode_packet(pv) =~= seq![0x81u8] + (enc_str_bytes(kvb) + spec_body(pv)));
    assert(gb =~= gb.subrange(0, gb.len() as int));
    assert(gb =~= spec_encode_packet(pv));
}

// ---------------------------------------------------------------------------
// Framing.
// ---------------------------------------------------------------------------
/// The whole frame for a packet: the payload length as four big-endian
/// bytes, then the payload.
pub open spec fn spec_frame(p: PacketView) -> Seq<u8> {
    be32(spec_encode_packet(p).len() as u32) + spec_encode_packet(p)
}

/// Encode and frame a packet for the stream; `None` iff the packet cannot
/// be encoded or its payload does not fit the length prefix.
pub fn frame_packet(p: &Packet) -> (r: Option<Vec<u8>>)
    ensures
        r matches Some(v) ==> packet_encodable(p@) && spec_encode_packet(p@).len() < 0x100000000
            && v@ == spec_frame(p@),
        r is None ==> !packet_encodable(p@) || spec_encode_packet(p@).len() >= 0x100000000,
{
    let payload = match encode_packet(p) {
        Some(v) => v,
        None => {
            return None;
        },
    };
    if (payload.len() as u64) >= 0x100000000u64 {
        return None;
    }
    let mut out: Vec<u8> = Vec::new();
    put_be32(&mut out, payload.len() as u32);
    put_slice(&mut out, payload.as_slice());
    proof {
        assert(out@ =~= spec_frame(p@));
    }
    Some(out)
}

/// Read the payload length out of the four bytes of a frame header.
pub fn frame_payload_len(header: &[u8]) -> (n: u64)
    requires
        header@.len() == 4,
    ensures
        n < 0x100000000,
        be32(n as u32) == header@,
{
    let b1 = header[0];
    let b2 = header[1];
    let b3 = header[2];
    let b4 = header[3];
    let n: u64 = (b1 as u64) * 0x1000000 + (b2 as u64) * 0x10000 + (b3 as u64) * 256 + (b4 as u64);
    proof {
        lemma_be32_inverse(b1, b2, b3, b4);
        assert(be32(n as u32) =~= header@);
    }
    n
}

impl Packet {
    /// Decode one packet from an exact payload; the method form of
    /// [`decode_packet`].
    pub fn from_bytes(bytes: &[u8]) -> (r: Result<Packet, DecodeError>)
        ensures
            r matches Ok(p) ==> packet_encodable(p@) && bytes@ == spec_encode_packet(p@),
            forall|pv: PacketView|
                packet_encodable(pv) && bytes@ == #[trigger] spec_encode_packet(pv) ==> (
                r matches Ok(p) && p@ == pv),
    {
        decode_packet(bytes)
    }

    /// Encode this packet to its exact wire form; the method form of
    /// [`encode_packet`].
    pub fn to_bytes(&self) -> (r: Option<Vec<u8>>)
        ensures
            r matches Some(v) ==> packet_encodable(self@) && v@ == spec_encode_packet(self@),
            r is None ==> !packet_encodable(self@),
    {
        encode_packet(self)
    }
}

} // verus!
