//! The packet vocabulary spoken between the controller and every server,
//! and the kinds of server that may connect.

use vstd::prelude::*;
use vstd::string::StringExecFns;

verus! {

/// What sort of server a connection claims to be.
///
/// `Minigame` carries the minigame kind (for example `"bedwars"`); the other
/// three are singletons from the controller's point of view.
#[derive(Debug, PartialEq)]
pub enum Kind {
    Limbo,
    Proxy,
    Lobby,
    Minigame { kind: String },
}

/// Mathematical image of a [`Kind`]: strings become character sequences.
pub enum KindView {
    Limbo,
    Proxy,
    Lobby,
    Minigame { kind: Seq<char> },
}

impl View for Kind {
    type V = KindView;

    open spec fn view(&self) -> KindView {
        match self {
            Kind::Limbo => KindView::Limbo,
            Kind::Proxy => KindView::Proxy,
            Kind::Lobby => KindView::Lobby,
            Kind::Minigame { kind } => KindView::Minigame { kind: kind@ },
        }
    }
}

impl Clone for Kind {
    fn clone(&self) -> (r: Self)
        ensures
            r@ == self@,
    {
        match self {
            Kind::Limbo => Kind::Limbo,
            Kind::Proxy => Kind::Proxy,
            Kind::Lobby => Kind::Lobby,
            Kind::Minigame { kind } => Kind::Minigame { kind: kind.clone() },
        }
    }
}

impl KindView {
    /// Routing priority of a linked server: the proxy forwards players to the
    /// connected server with the highest priority.
    pub open spec fn spec_priority(self) -> u16
        recommends
            !(self is Proxy),
    {
        match self {
            KindView::Lobby => 2u16,
            KindView::Limbo => 1u16,
            KindView::Minigame { .. } => 0u16,
            KindView::Proxy => arbitrary(),
        }
    }

    /// The basename under which containers of this kind are spawned.
    pub open spec fn spec_display_name(self) -> Seq<char> {
        match self {
            KindView::Limbo => "limbo"@,
            KindView::Proxy => "proxy"@,
            KindView::Lobby => "lobby"@,
            KindView::Minigame { kind } => "minigame-"@ + kind,
        }
    }
}

impl Kind {
    /// Routing priority used in `LinkServer`: lobby 2, limbo 1, minigame 0.
    /// The proxy itself is never linked and has no priority.
    pub fn priority(&self) -> (p: u16)
        requires
            !(self@ is Proxy),
        ensures
            p == self@.spec_priority(),
    {
        match self {
            Kind::Lobby => 2,
            Kind::Limbo => 1,
            Kind::Minigame { .. } => 0,
            Kind::Proxy => {
                proof {
                    assert(false);
                }
                0
            },
        }
    }

    /// The name this kind displays as: `limbo`, `proxy`, `lobby` or
    /// `minigame-{kind}`; also the basename for allocated container names.
    pub fn display_name(&self) -> (r: String)
        ensures
            r@ == self@.spec_display_name(),
    {
        match self {
            Kind::Limbo => "limbo".to_owned(),
            Kind::Proxy => "proxy".to_owned(),
            Kind::Lobby => "lobby".to_owned(),
            Kind::Minigame { kind } => {
                let mut r = "minigame-".to_owned();
                r.append(kind.as_str());
                r
            },
        }
    }
}

/// The unique identity of a connected server.
#[derive(Debug, PartialEq)]
pub struct ServerName(pub String);

impl View for ServerName {
    type V = Seq<char>;

    open spec fn view(&self) -> Seq<char> {
        self.0@
    }
}

impl Clone for ServerName {
    fn clone(&self) -> (r: Self)
        ensures
            r@ == self@,
    {
        ServerName(self.0.clone())
    }
}

/// Every frame on a connection carries exactly one of these packets.
#[derive(Debug, PartialEq)]
pub enum Packet {
    /// First packet of every connection: the server introduces itself.
    Authentication { name: String, kind: Kind, ip: String },
    /// A client asks for a server of `kind`; `player` is the waiting player,
    /// if any.
    Request { kind: Kind, player: Option<String> },
    /// Controller to proxy: a new backend exists.
    LinkServer { name: String, address: String, port: u16, priority: u16 },
    /// Controller to proxy: a backend is gone.
    UnlinkServer { name: String },
    /// Controller to proxy: move `player` to the backend named `to`.
    TransportPlayer { player: String, to: String },
    /// Controller to a minigame server: are you accepting players this epoch?
    Ping { timer: i32 },
    /// Minigame server's volunteer answer to a `Ping` of the same epoch.
    Pong { timer: i32 },
    /// Minigame server opts in or out of receiving `Ping`s.
    UpdateActive { active: bool },
}

/// Mathematical image of a [`Packet`].
pub enum PacketView {
    Authentication { name: Seq<char>, kind: KindView, ip: Seq<char> },
    Request { kind: KindView, player: Option<Seq<char>> },
    LinkServer { name: Seq<char>, address: Seq<char>, port: u16, priority: u16 },
    UnlinkServer { name: Seq<char> },
    TransportPlayer { player: Seq<char>, to: Seq<char> },
    Ping { timer: i32 },
    Pong { timer: i32 },
    UpdateActive { active: bool },
}

impl View for Packet {
    type V = PacketView;

    open spec fn view(&self) -> PacketView {
        match self {
            Packet::Authentication { name, kind, ip } => PacketView::Authentication {
                name: name@,
                kind: kind@,
                ip: ip@,
            },
            Packet::Request { kind, player } => PacketView::Request {
                kind: kind@,
                player: match player {
                    Some(p) => Some(p@),
                    None => None,
                },
            },
            Packet::LinkServer { name, address, port, priority } => PacketView::LinkServer {
                name: name@,
                address: address@,
                port: *port,
                priority: *priority,
            },
            Packet::UnlinkServer { name } => PacketView::UnlinkServer { name: name@ },
            Packet::TransportPlayer { player, to } => PacketView::TransportPlayer {
                player: player@,
                to: to@,
            },
            Packet::Ping { timer } => PacketView::Ping { timer: *timer },
            Packet::Pong { timer } => PacketView::Pong { timer: *timer },
            Packet::UpdateActive { active } => PacketView::UpdateActive { active: *active },
        }
    }
}

} // verus!
