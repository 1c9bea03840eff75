//! Per-connection session logic: the first packet must authenticate the
//! server, later packets translate to brain messages. The socket reads and
//! the channel sends around these decisions live in the I/O shell, which
//! sends the brain exactly one `Unlink` when a session ends.

use vstd::prelude::*;
use vstd::string::StrSliceExecFns;

use crate::brain::{BrainMsg, BrainMsgView, ConnectionInfo};
use crate::cluster::{ClusterEvent, ClusterEventView};
use crate::packet::{Kind, KindView, Packet, PacketView};

verus! {

/// The numeric value of a decimal digit string (most significant first).
pub open spec fn digits_value(d: Seq<char>) -> int
    decreases d.len(),
{
    if d.len() == 0 {
        0
    } else {
        digits_value(d.drop_last()) * 10 + (d.last() as u32 - 48)
    }
}

/// All characters are decimal digits.
pub open spec fn all_digits(d: Seq<char>) -> bool {
    forall|i: int| 0 <= i < d.len() ==> '0' <= #[trigger] d[i] <= '9'
}

/// The self-reported address with the slashes around it removed.
pub open spec fn spec_trimmed(ip: Seq<char>) -> Seq<char>
    decreases ip.len(),
{
    if ip.len() > 0 && ip.first() == '/' {
        spec_trimmed(ip.drop_first())
    } else if ip.len() > 0 && ip.last() == '/' {
        spec_trimmed(ip.drop_last())
    } else {
        ip
    }
}

/// Whether `t` has a colon at or after position `from`.
pub open spec fn has_colon_from(t: Seq<char>, from: int) -> bool {
    exists|i: int| from <= i < t.len() && t[i] == ':'
}

/// The position of the last colon of `t`.
pub open spec fn last_colon(t: Seq<char>) -> int
    recommends
        has_colon_from(t, 0),
    decreases t.len(),
{
    if t.len() == 0 {
        0
    } else if t.last() == ':' {
        t.len() - 1
    } else {
        last_colon(t.drop_last())
    }
}

/// The port in a self-reported `host:port` address, if it is well-formed:
/// after trimming slashes, the characters after the last colon must be a
/// non-empty run of decimal digits whose value fits a port number. The host
/// part is not inspected; the accepted peer's host is used instead of it.
pub open spec fn spec_port_of(ip: Seq<char>) -> Option<u16> {
    let t = spec_trimmed(ip);
    if !has_colon_from(t, 0) {
        None
    } else {
        let d = t.subrange(last_colon(t) + 1, t.len() as int);
        if d.len() == 0 || !all_digits(d) || digits_value(d) > 65535 {
            None
        } else {
            Some(digits_value(d) as u16)
        }
    }
}

proof fn lemma_last_colon_bounds(t: Seq<char>)
    requires
        has_colon_from(t, 0),
    ensures
        0 <= last_colon(t) < t.len(),
        t[last_colon(t)] == ':',
        forall|i: int| last_colon(t) < i < t.len() ==> t[i] != ':',
    decreases t.len(),
{
    if t.len() > 0 && t.last() != ':' {
        assert(has_colon_from(t.drop_last(), 0)) by {
            let i = choose|i: int| 0 <= i < t.len() && t[i] == ':';
            assert(t.drop_last()[i] == ':');
        }
        lemma_last_colon_bounds(t.drop_last());
        assert(t[last_colon(t)] == ':') by {
            assert(t.drop_last()[last_colon(t.drop_last())] == t[last_colon(t.drop_last())]);
        }
        assert forall|i: int| last_colon(t) < i < t.len() implies t[i] != ':' by {
            if i < t.len() - 1 {
                assert(t.drop_last()[i] == t[i]);
            }
        }
    }
}

proof fn lemma_digits_value_grows(d: Seq<char>, i: int)
    requires
        0 <= i <= d.len(),
        all_digits(d),
    ensures
        digits_value(d.take(i)) >= 0,
        digits_value(d) >= digits_value(d.take(i)),
    decreases d.len() - i,
{
    lemma_digits_value_nonneg(d.take(i));
    if i < d.len() {
        lemma_digits_value_grows(d, i + 1);
        assert(d.take(i + 1).drop_last() =~= d.take(i));
        assert(d.take(i + 1).last() == d[i]);
        assert(digits_value(d.take(i + 1)) == digits_value(d.take(i)) * 10 + (d.take(i + 1).last()
            as u32 - 48));
    } else {
        assert(d.take(i) =~= d);
    }
}

proof fn lemma_digits_value_nonneg(d: Seq<char>)
    requires
        all_digits(d),
    ensures
        digits_value(d) >= 0,
    decreases d.len(),
{
    if d.len() > 0 {
        assert(all_digits(d.drop_last())) by {
            assert forall|i: int| 0 <= i < d.len() - 1 implies '0' <= #[trigger] d.drop_last()[i]
                <= '9' by {
                assert(d.drop_last()[i] == d[i]);
            }
        }
        lemma_digits_value_nonneg(d.drop_last());
        assert(d.last() as u32 >= 48) by {
            assert('0' <= d[d.len() - 1] <= '9');
            vstd::utf8::char_u32_cast(d.last(), d.last() as u32);
            assert('0' as u32 == 48);
        }
    }
}

/// Extract the port from a self-reported `host:port` string.
pub fn parse_port(ip: &str) -> (r: Option<u16>)
    ensures
        r == spec_port_of(ip@),
{
    let n = ip.unicode_len();
    proof {
        assert(ip@.subrange(0, n as int) =~= ip@);
    }
    // trim '/' on both sides
    let mut lo: usize = 0;
    let mut hi: usize = n;
    #[verifier::loop_isolation(false)]
    while lo < hi && ip.get_char(lo) == '/'
        invariant
            0 <= lo <= hi <= n,
            hi == n,
            spec_trimmed(ip@) == spec_trimmed(ip@.subrange(lo as int, hi as int)),
        decreases hi - lo,
    {
        proof {
            let cur = ip@.subrange(lo as int, hi as int);
            assert(cur.drop_first() =~= ip@.subrange(lo + 1, hi as int));
        }
        lo += 1;
    }
    #[verifier::loop_isolation(false)]
    while hi > lo && ip.get_char(hi - 1) == '/'
        invariant
            0 <= lo <= hi <= n,
            spec_trimmed(ip@) == spec_trimmed(ip@.subrange(lo as int, hi as int)),
            lo < hi ==> ip@[lo as int] != '/',
        decreases hi,
    {
        proof {
            let cur = ip@.subrange(lo as int, hi as int);
            assert(cur.drop_last() =~= ip@.subrange(lo as int, hi - 1));
        }
        hi -= 1;
    }
    proof {
        let t = ip@.subrange(lo as int, hi as int);
        assert(spec_trimmed(t) == t);
    }
    let ghost t = spec_trimmed(ip@);
    // find the last colon
    let mut colon: usize = hi;
    let mut j: usize = hi;
    #[verifier::loop_isolation(false)]
    while j > lo
        invariant
            lo <= j <= hi,
            colon <= hi,
            colon == hi ==> forall|i: int| j <= i < hi ==> ip@[i] != ':',
            colon < hi ==> j <= colon && ip@[colon as int] == ':' && (forall|i: int|
                colon < i < hi ==> ip@[i] != ':'),
        decreases j,
    {
        if colon == hi && ip.get_char(j - 1) == ':' {
            colon = j - 1;
        }
        j -= 1;
    }
    if colon == hi {
        proof {
            assert(!has_colon_from(t, 0)) by {
                assert forall|i: int| 0 <= i < t.len() implies t[i] != ':' by {
                    assert(t[i] == ip@[lo + i]);
                }
            }
        }
        return None;
    }
    proof {
        assert(has_colon_from(t, 0)) by {
            assert(t[colon - lo] == ip@[colon as int]);
        }
        lemma_last_colon_bounds(t);
        assert(last_colon(t) == colon - lo) by {
            if last_colon(t) < colon - lo {
                assert(t[colon - lo] == ':');
            } else if last_colon(t) > colon - lo {
                assert(ip@[lo + last_colon(t)] == ':');
            }
        }
    }
    // parse the digits after it
    let ghost d = t.subrange(last_colon(t) + 1, t.len() as int);
    if colon + 1 == hi {
        proof {
            assert(d.len() == 0);
        }
        return None;
    }
    let mut acc: u32 = 0;
    let mut k: usize = colon + 1;
    #[verifier::loop_isolation(false)]
    while k < hi
        invariant
            colon + 1 <= k <= hi,
            acc <= 65535,
            all_digits(d.take(k - colon - 1)),
            acc == digits_value(d.take(k - colon - 1)),
        decreases hi - k,
    {
        let c = ip.get_char(k);
        let cu = c as u32;
        proof {
            assert(d[k - colon - 1] == ip@[k as int]);
        }
        if cu < 48 || cu > 57 {
            proof {
                assert(!all_digits(d)) by {
                    assert(d[k - colon - 1] == c);
                    assert(!('0' <= c <= '9')) by {
                        vstd::utf8::char_u32_cast(c, cu);
                        assert('0' as u32 == 48 && '9' as u32 == 57);
                    }
                }
            }
            return None;
        }
        acc = acc * 10 + (cu - 48);
        proof {
            assert(d.take(k - colon) =~= d.take(k - colon - 1).push(d[k - colon - 1]));
            assert(d.take(k - colon).drop_last() =~= d.take(k - colon - 1));
            assert('0' <= c <= '9') by {
                vstd::utf8::char_u32_cast(c, cu);
                assert('0' as u32 == 48 && '9' as u32 == 57);
            }
        }
        if acc > 65535 {
            proof {
                assert(digits_value(d.take(k - colon)) > 65535);
                if all_digits(d) {
                    lemma_digits_value_grows(d, k - colon);
                }
            }
            return None;
        }
        k += 1;
    }
    proof {
        assert(d.take(hi - colon - 1) =~= d);
    }
    Some(acc as u16)
}

/// Why a handshake was refused.
#[derive(Debug, PartialEq)]
pub enum HandshakeError {
    /// The first packet was not an `Authentication`; the refused packet is
    /// returned.
    NotAuthentication(Packet),
    /// The self-reported address carries no usable port.
    BadAddress,
}

/// Check the first packet of a connection: it must be an `Authentication`
/// with a usable self-reported port. The connection identity combines the
/// packet's name and kind, the accepted peer's host, and that port.
pub fn classify_handshake(packet: Packet, peer_host: String) -> (r: Result<
    ConnectionInfo,
    HandshakeError,
>)
    ensures
        match r {
            Ok(conn) => {
                &&& packet@ matches PacketView::Authentication { name, kind, ip }
                &&& spec_port_of(ip) matches Some(port)
                &&& conn@.name == name
                &&& conn@.kind == kind
                &&& conn@.host == peer_host@
                &&& conn@.port == port
            },
            Err(HandshakeError::NotAuthentication(p)) => p@ == packet@ && !(
            packet@ is Authentication),
            Err(HandshakeError::BadAddress) => {
                &&& packet@ matches PacketView::Authentication { ip, .. }
                &&& spec_port_of(ip) is None
            },
        },
{
    match packet {
        Packet::Authentication { name, kind, ip } => {
            match parse_port(ip.as_str()) {
                Some(port) => Ok(ConnectionInfo { name, kind, host: peer_host, port }),
                None => Err(HandshakeError::BadAddress),
            }
        },
        other => Err(HandshakeError::NotAuthentication(other)),
    }
}

/// What one packet of an authenticated session amounts to.
#[derive(Debug, PartialEq)]
pub enum Translation {
    /// Send this message to the brain.
    Forward(BrainMsg),
    /// A protocol violation (an unexpected packet); terminate the session.
    /// The offending packet is returned.
    Spurious(Packet),
}

/// The expected translation, on the views.
pub open spec fn spec_translate(conn: crate::brain::ConnectionInfoView, p: PacketView) -> Option<
    BrainMsgView,
> {
    match p {
        PacketView::Request { kind, player } => Some(BrainMsgView::Dispatch { kind, player }),
        PacketView::UpdateActive { active } => match conn.kind {
            KindView::Minigame { kind } => Some(
                BrainMsgView::ClusterForward {
                    minigame_kind: kind,
                    msg: ClusterEventView::UpdateActive { name: conn.name, active },
                },
            ),
            _ => None,
        },
        PacketView::Pong { timer } => match conn.kind {
            KindView::Minigame { kind } => Some(
                BrainMsgView::ClusterForward {
                    minigame_kind: kind,
                    msg: ClusterEventView::ServerPong { timer, name: conn.name },
                },
            ),
            _ => None,
        },
        _ => None,
    }
}

/// Translate one packet read from an authenticated session: requests become
/// dispatches; `UpdateActive` and `Pong` from a minigame server go to its
/// cluster; everything else (another `Authentication` included) is spurious
/// and terminates the session.
pub fn translate_packet(conn: &ConnectionInfo, packet: Packet) -> (r: Translation)
    ensures
        match r {
            Translation::Forward(msg) => spec_translate(conn@, packet@) == Some(msg.deep_view()),
            Translation::Spurious(p) => p@ == packet@ && spec_translate(conn@, packet@) is None,
        },
{
    match packet {
        Packet::Request { kind, player } => Translation::Forward(
            BrainMsg::Dispatch { kind, player },
        ),
        Packet::UpdateActive { active } => {
            match &conn.kind {
                Kind::Minigame { kind } => Translation::Forward(
                    BrainMsg::ClusterForward {
                        minigame_kind: kind.clone(),
                        msg: ClusterEvent::UpdateActive { name: conn.name.clone(), active },
                    },
                ),
                _ => Translation::Spurious(Packet::UpdateActive { active }),
            }
        },
        Packet::Pong { timer } => {
            match &conn.kind {
                Kind::Minigame { kind } => Translation::Forward(
                    BrainMsg::ClusterForward {
                        minigame_kind: kind.clone(),
                        msg: ClusterEvent::ServerPong { timer, name: conn.name.clone() },
                    },
                ),
                _ => Translation::Spurious(Packet::Pong { timer }),
            }
        },
        other => Translation::Spurious(other),
    }
}

} // verus!
