//! The brain: single owner of the global dispatch state. It records and
//! unrecords connected servers, keeps the proxy informed with `LinkServer`
//! and `UnlinkServer`, routes minigame traffic to the per-kind clusters,
//! allocates names for and plans container spawns, and orders player
//! transports.
//!
//! Until the proxy has connected, every other message is buffered; the
//! proxy's arrival replays the buffer. Losing the proxy afterwards is fatal.

use vstd::prelude::*;
use vstd::string::StringExecFns;

use crate::cluster::{ClusterEvent, ClusterEventView};
use crate::names::{name_with_index, UniqueNameSet};
use crate::packet::{Kind, KindView, Packet, PacketView, ServerName};
use crate::registry::{ComputerStatus, GlobalComputerMap};
use crate::spawner::{spawn_plan, spawnable, spec_spawn_env, spec_spawn_image};
use crate::strutil::str_eq;

verus! {

/// Who a connection is, as the brain sees it: the name and kind it
/// authenticated with, the peer's host and its self-reported port.
#[derive(Debug, PartialEq)]
pub struct ConnectionInfo {
    pub name: String,
    pub kind: Kind,
    pub host: String,
    pub port: u16,
}

/// Mathematical image of a [`ConnectionInfo`].
pub struct ConnectionInfoView {
    pub name: Seq<char>,
    pub kind: KindView,
    pub host: Seq<char>,
    pub port: u16,
}

impl View for ConnectionInfo {
    type V = ConnectionInfoView;

    open spec fn view(&self) -> ConnectionInfoView {
        ConnectionInfoView { name: self.name@, kind: self.kind@, host: self.host@, port: self.port }
    }
}

/// A message to the brain. Write-halves are opaque tickets (`writer`); the
/// I/O shell owns the real sockets and maps tickets back to them.
#[derive(Debug, PartialEq)]
pub enum BrainMsg {
    /// A session finished its handshake and hands over its write-half.
    NewConn { conn: ConnectionInfo, writer: u64 },
    /// A session terminated.
    Unlink { conn: ConnectionInfo },
    /// A client asked for a server of this kind, possibly for a player.
    Dispatch { kind: Kind, player: Option<String> },
    /// A minigame session's event for its cluster.
    ClusterForward { minigame_kind: String, msg: ClusterEvent },
    /// Have a fresh server of this kind spawned.
    Spawn { kind: Kind },
    /// Move a player to a resolved server.
    Transport { player: String, server: ServerName },
}

/// Mathematical image of a [`BrainMsg`].
pub enum BrainMsgView {
    NewConn { conn: ConnectionInfoView, writer: u64 },
    Unlink { conn: ConnectionInfoView },
    Dispatch { kind: KindView, player: Option<Seq<char>> },
    ClusterForward { minigame_kind: Seq<char>, msg: ClusterEventView },
    Spawn { kind: KindView },
    Transport { player: Seq<char>, server: Seq<char> },
}

impl DeepView for BrainMsg {
    type V = BrainMsgView;

    open spec fn deep_view(&self) -> BrainMsgView {
        match self {
            BrainMsg::NewConn { conn, writer } => BrainMsgView::NewConn {
                conn: conn@,
                writer: *writer,
            },
            BrainMsg::Unlink { conn } => BrainMsgView::Unlink { conn: conn@ },
            BrainMsg::Dispatch { kind, player } => BrainMsgView::Dispatch {
                kind: kind@,
                player: match player {
                    Some(p) => Some(p@),
                    None => None,
                },
            },
            BrainMsg::ClusterForward { minigame_kind, msg } => BrainMsgView::ClusterForward {
                minigame_kind: minigame_kind@,
                msg: msg@,
            },
            BrainMsg::Spawn { kind } => BrainMsgView::Spawn { kind: kind@ },
            BrainMsg::Transport { player, server } => BrainMsgView::Transport {
                player: player@,
                server: server@,
            },
        }
    }
}

/// What the shell must do after a brain step, in order.
#[derive(Debug, PartialEq)]
pub enum BrainAction {
    /// Write this packet to the proxy and flush; failure is fatal.
    SendProxy { packet: Packet },
    /// Shut down the write-half behind this ticket (duplicate proxy).
    ShutdownWriter { writer: u64 },
    /// Start a cluster task for this minigame kind.
    CreateCluster { kind: String },
    /// Deliver this event to that cluster.
    ClusterDeliver { kind: String, ev: ClusterEvent },
    /// Await the resolution of ticket `req`; if a player is named, send
    /// `Transport{player, resolved server}` back to the brain.
    AwaitReply { req: u64, player: Option<String> },
    /// Create a container named `name` from `image` with environment `env`,
    /// attach it to the network, start it. Errors are logged, not fatal.
    SpawnContainer { name: String, env: Vec<String>, image: String },
    /// Mirror this status into the shared registry.
    SetStatus { name: String, status: ComputerStatus },
    /// Re-inject these buffered messages into the brain's queue, in order.
    Reinject { msgs: Vec<BrainMsg> },
    /// The single-proxy invariant is broken: stop the controller.
    Fatal,
}

/// Mathematical image of a [`BrainAction`].
pub enum BrainActionView {
    SendProxy { packet: PacketView },
    ShutdownWriter { writer: u64 },
    CreateCluster { kind: Seq<char> },
    ClusterDeliver { kind: Seq<char>, ev: ClusterEventView },
    AwaitReply { req: u64, player: Option<Seq<char>> },
    SpawnContainer { name: Seq<char>, env: Seq<Seq<char>>, image: Seq<char> },
    SetStatus { name: Seq<char>, status: ComputerStatus },
    Reinject { msgs: Seq<BrainMsgView> },
    Fatal,
}

impl DeepView for BrainAction {
    type V = BrainActionView;

    open spec fn deep_view(&self) -> BrainActionView {
        match self {
            BrainAction::SendProxy { packet } => BrainActionView::SendProxy { packet: packet@ },
            BrainAction::ShutdownWriter { writer } => BrainActionView::ShutdownWriter {
                writer: *writer,
            },
            BrainAction::CreateCluster { kind } => BrainActionView::CreateCluster { kind: kind@ },
            BrainAction::ClusterDeliver { kind, ev } => BrainActionView::ClusterDeliver {
                kind: kind@,
                ev: ev@,
            },
            BrainAction::AwaitReply { req, player } => BrainActionView::AwaitReply {
                req: *req,
                player: match player {
                    Some(p) => Some(p@),
                    None => None,
                },
            },
            BrainAction::SpawnContainer { name, env, image } => BrainActionView::SpawnContainer {
                name: name@,
                env: env.deep_view(),
                image: image@,
            },
            BrainAction::SetStatus { name, status } => BrainActionView::SetStatus {
                name: name@,
                status: *status,
            },
            BrainAction::Reinject { msgs } => BrainActionView::Reinject { msgs: msgs.deep_view() },
            BrainAction::Fatal => BrainActionView::Fatal,
        }
    }
}

/// Startup or steady state.
#[derive(Debug, Clone, Copy, PartialEq, Eq, Structural)]
pub enum BrainPhase {
    /// No proxy yet: buffer everything else.
    WaitingForProxy,
    /// The proxy is connected.
    Steady,
}

/// The brain's whole state.
pub struct BrainState {
    pub phase: BrainPhase,
    /// Messages received before the proxy connected, in arrival order.
    pub buffered: Vec<BrainMsg>,
    /// Every name handed out and not yet released.
    pub used_names: UniqueNameSet,
    /// The brain's view of every server's status.
    pub statuses: GlobalComputerMap,
    /// The minigame kinds whose clusters exist.
    pub cluster_kinds: Vec<String>,
    /// Ticket of the lobby's write-half, kept so the connection stays alive.
    pub lobby_writer: Option<u64>,
    /// Ticket of the limbo's write-half, kept like the lobby's.
    pub limbo_writer: Option<u64>,
    /// Ticket of the proxy's write-half.
    pub proxy_writer: Option<u64>,
    /// The next fresh queue-request ticket.
    pub next_req: u64,
}

/// Mathematical image of a [`BrainState`].
pub struct BrainStateView {
    pub phase: BrainPhase,
    pub buffered: Seq<BrainMsgView>,
    pub used_names: Set<Seq<char>>,
    pub statuses: Map<Seq<char>, ComputerStatus>,
    pub cluster_kinds: Seq<Seq<char>>,
    pub lobby_writer: Option<u64>,
    pub limbo_writer: Option<u64>,
    pub proxy_writer: Option<u64>,
    pub next_req: u64,
}

impl View for BrainState {
    type V = BrainStateView;

    open spec fn view(&self) -> BrainStateView {
        BrainStateView {
            phase: self.phase,
            buffered: self.buffered.deep_view(),
            used_names: self.used_names@,
            statuses: self.statuses@,
            cluster_kinds: self.cluster_kinds.deep_view(),
            lobby_writer: self.lobby_writer,
            limbo_writer: self.limbo_writer,
            proxy_writer: self.proxy_writer,
            next_req: self.next_req,
        }
    }
}

/// True iff a cluster for this kind exists.
pub open spec fn has_kind(kinds: Seq<Seq<char>>, k: Seq<char>) -> bool {
    exists|i: int| 0 <= i < kinds.len() && kinds[i] == k
}

/// `n` is the smallest index whose name for this base is free.
pub open spec fn is_first_free(names: Set<Seq<char>>, base: Seq<char>, n: nat) -> bool {
    &&& !names.contains(name_with_index(base, n))
    &&& forall|m: nat| m < n ==> names.contains(name_with_index(base, m))
}

/// The smallest free index for this base.
pub open spec fn first_free(names: Set<Seq<char>>, base: Seq<char>) -> nat {
    choose|n: nat| is_first_free(names, base, n)
}

proof fn lemma_first_free_unique(names: Set<Seq<char>>, base: Seq<char>, n: nat)
    requires
        is_first_free(names, base, n),
    ensures
        first_free(names, base) == n,
{
    let n2 = first_free(names, base);
    assert(is_first_free(names, base, n2));
    if n2 < n {
        assert(names.contains(name_with_index(base, n2)));
    } else if n < n2 {
        assert(names.contains(name_with_index(base, n)));
    }
}

// ---------------------------------------------------------------------------
// The transition relation.
// ---------------------------------------------------------------------------
/// Startup: buffer everything until a proxy `NewConn` arrives; then record
/// the reserved name `"proxy"`, mark it online, and replay the buffer.
pub open spec fn spec_waiting_step(pre: BrainStateView, msg: BrainMsgView) -> (
    BrainStateView,
    Seq<BrainActionView>,
) {
    match msg {
        BrainMsgView::NewConn { conn, writer } => {
            if conn.kind is Proxy {
                (
                    BrainStateView {
                        phase: BrainPhase::Steady,
                        buffered: Seq::empty(),
                        used_names: pre.used_names.insert("proxy"@),
                        statuses: pre.statuses.insert("proxy"@, ComputerStatus::Online),
                        proxy_writer: Some(writer),
                        ..pre
                    },
                    seq![
                        BrainActionView::SetStatus {
                            name: "proxy"@,
                            status: ComputerStatus::Online,
                        },
                        BrainActionView::Reinject { msgs: pre.buffered },
                    ],
                )
            } else {
                (
                    BrainStateView { buffered: pre.buffered.push(msg), ..pre },
                    Seq::empty(),
                )
            }
        },
        _ => (BrainStateView { buffered: pre.buffered.push(msg), ..pre }, Seq::empty()),
    }
}

/// A server connected: record it, mark it online, keep its write-half alive
/// (lobby and limbo) or hand it to its cluster (minigame, creating the
/// cluster on first use), and link it at the proxy. A second proxy is only
/// shut down.
pub open spec fn spec_new_conn(pre: BrainStateView, conn: ConnectionInfoView, writer: u64) -> (
    BrainStateView,
    Seq<BrainActionView>,
) {
    if conn.kind is Proxy {
        (pre, seq![BrainActionView::ShutdownWriter { writer }])
    } else {
        let recorded = BrainStateView {
            used_names: pre.used_names.insert(conn.name),
            statuses: pre.statuses.insert(conn.name, ComputerStatus::Online),
            ..pre
        };
        let status_act = BrainActionView::SetStatus {
            name: conn.name,
            status: ComputerStatus::Online,
        };
        let link_act = BrainActionView::SendProxy {
            packet: PacketView::LinkServer {
                name: conn.name,
                address: conn.host,
                port: conn.port,
                priority: conn.kind.spec_priority(),
            },
        };
        match conn.kind {
            KindView::Lobby => (
                BrainStateView { lobby_writer: Some(writer), ..recorded },
                seq![status_act, link_act],
            ),
            KindView::Limbo => (
                BrainStateView { limbo_writer: Some(writer), ..recorded },
                seq![status_act, link_act],
            ),
            KindView::Minigame { kind } => {
                let push_act = BrainActionView::ClusterDeliver {
                    kind,
                    ev: ClusterEventView::PushServer { name: conn.name, active: true },
                };
                if has_kind(pre.cluster_kinds, kind) {
                    (recorded, seq![status_act, push_act, link_act])
                } else {
                    (
                        BrainStateView {
                            cluster_kinds: recorded.cluster_kinds.push(kind),
                            ..recorded
                        },
                        seq![
                            status_act,
                            BrainActionView::CreateCluster { kind },
                            push_act,
                            link_act,
                        ],
                    )
                }
            },
            KindView::Proxy => (pre, Seq::empty()),
        }
    }
}

/// A server disconnected: mark it offline, release its name, unlink it at
/// the proxy and tell its cluster. Losing the proxy itself is fatal.
pub open spec fn spec_unlink(pre: BrainStateView, conn: ConnectionInfoView) -> (
    BrainStateView,
    Seq<BrainActionView>,
) {
    let released = BrainStateView {
        used_names: pre.used_names.remove(conn.name),
        statuses: pre.statuses.remove(conn.name),
        ..pre
    };
    let status_act = BrainActionView::SetStatus {
        name: conn.name,
        status: ComputerStatus::Offline,
    };
    if conn.kind is Proxy {
        (released, seq![status_act, BrainActionView::Fatal])
    } else {
        let unlink_act = BrainActionView::SendProxy {
            packet: PacketView::UnlinkServer { name: conn.name },
        };
        match conn.kind {
            KindView::Minigame { kind } => {
                if has_kind(pre.cluster_kinds, kind) {
                    (
                        released,
                        seq![
                            status_act,
                            unlink_act,
                            BrainActionView::ClusterDeliver {
                                kind,
                                ev: ClusterEventView::PopServer { name: conn.name },
                            },
                        ],
                    )
                } else {
                    (released, seq![status_act, unlink_act])
                }
            },
            _ => (released, seq![status_act, unlink_act]),
        }
    }
}

/// A queue request: only minigame kinds are served; the cluster (created on
/// first use) gets a fresh ticket and the shell awaits its resolution.
/// Limbo, proxy and (yet) lobby requests are dropped.
pub open spec fn spec_dispatch(
    pre: BrainStateView,
    kind: KindView,
    player: Option<Seq<char>>,
) -> (BrainStateView, Seq<BrainActionView>) {
    match kind {
        KindView::Minigame { kind } => {
            let req = pre.next_req;
            let bumped = BrainStateView { next_req: (pre.next_req + 1) as u64, ..pre };
            let deliver = BrainActionView::ClusterDeliver {
                kind,
                ev: ClusterEventView::QueueServer { req },
            };
            let await_act = BrainActionView::AwaitReply { req, player };
            if has_kind(pre.cluster_kinds, kind) {
                (bumped, seq![deliver, await_act])
            } else {
                (
                    BrainStateView { cluster_kinds: bumped.cluster_kinds.push(kind), ..bumped },
                    seq![BrainActionView::CreateCluster { kind }, deliver, await_act],
                )
            }
        },
        _ => (pre, Seq::empty()),
    }
}

/// Forward a session's event to its cluster; without a cluster the event is
/// dropped.
pub open spec fn spec_cluster_forward(
    pre: BrainStateView,
    minigame_kind: Seq<char>,
    ev: ClusterEventView,
) -> (BrainStateView, Seq<BrainActionView>) {
    if has_kind(pre.cluster_kinds, minigame_kind) {
        (pre, seq![BrainActionView::ClusterDeliver { kind: minigame_kind, ev }])
    } else {
        (pre, Seq::empty())
    }
}

/// Spawn a fresh server: allocate the first free `"{kind}-{n}"` name, mark
/// it starting, and have the shell run the container plan. The name stays
/// reserved even if the container fails.
pub open spec fn spec_spawn(pre: BrainStateView, kind: KindView) -> (
    BrainStateView,
    Seq<BrainActionView>,
) {
    let base = kind.spec_display_name();
    let name = name_with_index(base, first_free(pre.used_names, base));
    (
        BrainStateView {
            used_names: pre.used_names.insert(name),
            statuses: pre.statuses.insert(name, ComputerStatus::Starting),
            ..pre
        },
        seq![
            BrainActionView::SetStatus { name, status: ComputerStatus::Starting },
            BrainActionView::SpawnContainer {
                name,
                env: spec_spawn_env(name, kind),
                image: spec_spawn_image(kind),
            },
        ],
    )
}

/// The complete transition relation of the brain.
pub open spec fn spec_brain_step(pre: BrainStateView, msg: BrainMsgView) -> (
    BrainStateView,
    Seq<BrainActionView>,
) {
    if pre.phase is WaitingForProxy {
        spec_waiting_step(pre, msg)
    } else {
        match msg {
            BrainMsgView::NewConn { conn, writer } => spec_new_conn(pre, conn, writer),
            BrainMsgView::Unlink { conn } => spec_unlink(pre, conn),
            BrainMsgView::Dispatch { kind, player } => spec_dispatch(pre, kind, player),
            BrainMsgView::ClusterForward { minigame_kind, msg } => spec_cluster_forward(
                pre,
                minigame_kind,
                msg,
            ),
            BrainMsgView::Spawn { kind } => spec_spawn(pre, kind),
            BrainMsgView::Transport { player, server } => (
                pre,
                seq![
                    BrainActionView::SendProxy {
                        packet: PacketView::TransportPlayer { player, to: server },
                    },
                ],
            ),
        }
    }
}

/// What a message asks of the state it meets: spawns must be of a spawnable
/// kind, and ticket numbers must not run out.
pub open spec fn brain_step_ok(pre: BrainStateView, msg: BrainMsgView) -> bool {
    &&& (msg matches BrainMsgView::Spawn { kind } ==> spawnable(kind))
    &&& (msg matches BrainMsgView::Dispatch { kind, .. } && kind is Minigame ==> pre.next_req
        < u64::MAX)
}

impl BrainState {
    /// Internal invariant of the containers inside.
    pub open spec fn wf(&self) -> bool {
        &&& self.used_names.wf()
        &&& self.statuses.wf()
    }

    /// The initial brain: waiting for the proxy, nothing recorded.
    pub fn new() -> (r: BrainState)
        ensures
            r.wf(),
            r@.phase == BrainPhase::WaitingForProxy,
            r@.buffered == Seq::<BrainMsgView>::empty(),
            r@.used_names == Set::<Seq<char>>::empty(),
            r@.statuses == Map::<Seq<char>, ComputerStatus>::empty(),
            r@.cluster_kinds == Seq::<Seq<char>>::empty(),
            r@.lobby_writer is None,
            r@.limbo_writer is None,
            r@.proxy_writer is None,
            r@.next_req == 0u64,
    {
        let r = BrainState {
            phase: BrainPhase::WaitingForProxy,
            buffered: Vec::new(),
            used_names: UniqueNameSet::new(),
            statuses: GlobalComputerMap::new(),
            cluster_kinds: Vec::new(),
            lobby_writer: None,
            limbo_writer: None,
            proxy_writer: None,
            next_req: 0,
        };
        proof {
            assert(r@.buffered =~= Seq::<BrainMsgView>::empty());
            assert(r@.cluster_kinds =~= Seq::<Seq<char>>::empty());
        }
        r
    }

    /// Whether a cluster for `k` exists.
    fn has_cluster(&self, k: &str) -> (r: bool)
        ensures
            r == has_kind(self@.cluster_kinds, k@),
    {
        let mut i: usize = 0;
        #[verifier::loop_isolation(false)]
        while i < self.cluster_kinds.len()
            invariant
                i <= self.cluster_kinds@.len(),
                forall|j: int| 0 <= j < i ==> self.cluster_kinds.deep_view()[j] != k@,
            decreases self.cluster_kinds@.len() - i,
        {
            if str_eq(self.cluster_kinds[i].as_str(), k) {
                proof {
                    assert(self.cluster_kinds.deep_view()[i as int] == k@);
                }
                return true;
            }
            i += 1;
        }
        false
    }

    /// Drive the brain by one message; the returned actions are performed by
    /// the shell in order. The behaviour is exactly [`spec_brain_step`].
    pub fn step(&mut self, msg: BrainMsg) -> (acts: Vec<BrainAction>)
        requires
            old(self).wf(),
            brain_step_ok(old(self)@, msg.deep_view()),
        ensures
            final(self).wf(),
            final(self)@ == spec_brain_step(old(self)@, msg.deep_view()).0,
            acts.deep_view() == spec_brain_step(old(self)@, msg.deep_view()).1,
    {
        let mut acts: Vec<BrainAction> = Vec::new();
        if matches!(self.phase, BrainPhase::WaitingForProxy) {
            let buffer_it = !matches!(
                &msg,
                BrainMsg::NewConn { conn: ConnectionInfo { kind: Kind::Proxy, .. }, .. },
            );
            if buffer_it {
                self.buffered.push(msg);
                proof {
                    assert(self.buffered.deep_view() =~= old(self)@.buffered.push(
                        msg.deep_view(),
                    ));
                    assert(acts.deep_view() =~= Seq::<BrainActionView>::empty());
                }
                return acts;
            }
            match msg {
                BrainMsg::NewConn { conn: _, writer } => {
                    self.phase = BrainPhase::Steady;
                    self.proxy_writer = Some(writer);
                    self.statuses.set_status("proxy", ComputerStatus::Online);
                    let _ = self.used_names.record("proxy");
                    let mut buf: Vec<BrainMsg> = Vec::new();
                    core::mem::swap(&mut buf, &mut self.buffered);
                    acts.push(
                        BrainAction::SetStatus {
                            name: "proxy".to_owned(),
                            status: ComputerStatus::Online,
                        },
                    );
                    acts.push(BrainAction::Reinject { msgs: buf });
                    proof {
                        assert(self.buffered.deep_view() =~= Seq::<BrainMsgView>::empty());
                        assert(acts.deep_view() =~= spec_brain_step(
                            old(self)@,
                            msg.deep_view(),
                        ).1);
                    }
                },
                _ => {
                    proof {
                        assert(false);
                    }
                },
            }
            return acts;
        }
        match msg {
            BrainMsg::NewConn { conn, writer } => {
                if matches!(conn.kind, Kind::Proxy) {
                    acts.push(BrainAction::ShutdownWriter { writer });
                    proof {
                        assert(acts.deep_view() =~= seq![
                            BrainActionView::ShutdownWriter { writer },
                        ]);
                    }
                    return acts;
                }
                let ConnectionInfo { name, kind, host, port } = conn;
                self.statuses.set_status(name.as_str(), ComputerStatus::Online);
                acts.push(
                    BrainAction::SetStatus { name: name.clone(), status: ComputerStatus::Online },
                );
                let _ = self.used_names.record(name.as_str());
                let priority = kind.priority();
                match &kind {
                    Kind::Lobby => {
                        self.lobby_writer = Some(writer);
                    },
                    Kind::Limbo => {
                        self.limbo_writer = Some(writer);
                    },
                    Kind::Minigame { kind: mk } => {
                        if !self.has_cluster(mk.as_str()) {
                            self.cluster_kinds.push(mk.clone());
                            acts.push(BrainAction::CreateCluster { kind: mk.clone() });
                            proof {
                                assert(self.cluster_kinds.deep_view()
                                    =~= old(self)@.cluster_kinds.push(mk@));
                            }
                        }
                        acts.push(
                            BrainAction::ClusterDeliver {
                                kind: mk.clone(),
                                ev: ClusterEvent::PushServer { name: name.clone(), active: true },
                            },
                        );
                    },
                    Kind::Proxy => {
                        proof {
                            assert(false);
                        }
                    },
                }
                acts.push(
                    BrainAction::SendProxy {
                        packet: Packet::LinkServer { name, address: host, port, priority },
                    },
                );
                proof {
                    assert(acts.deep_view() =~= spec_brain_step(old(self)@, msg.deep_view()).1);
                }
                acts
            },
            BrainMsg::Unlink { conn } => {
                let ConnectionInfo { name, kind, .. } = conn;
                self.statuses.set_status(name.as_str(), ComputerStatus::Offline);
                acts.push(
                    BrainAction::SetStatus { name: name.clone(), status: ComputerStatus::Offline },
                );
                let _ = self.used_names.unrecord(name.as_str());
                if matches!(kind, Kind::Proxy) {
                    acts.push(BrainAction::Fatal);
                    proof {
                        assert(acts.deep_view() =~= spec_brain_step(
                            old(self)@,
                            msg.deep_view(),
                        ).1);
                    }
                    return acts;
                }
                acts.push(
                    BrainAction::SendProxy { packet: Packet::UnlinkServer { name: name.clone() } },
                );
                if let Kind::Minigame { kind: mk } = &kind {
                    if self.has_cluster(mk.as_str()) {
                        acts.push(
                            BrainAction::ClusterDeliver {
                                kind: mk.clone(),
                                ev: ClusterEvent::PopServer { name },
                            },
                        );
                    }
                }
                proof {
                    assert(acts.deep_view() =~= spec_brain_step(old(self)@, msg.deep_view()).1);
                }
                acts
            },
            BrainMsg::Dispatch { kind, player } => {
                match kind {
                    Kind::Minigame { kind: mk } => {
                        if !self.has_cluster(mk.as_str()) {
                            self.cluster_kinds.push(mk.clone());
                            acts.push(BrainAction::CreateCluster { kind: mk.clone() });
                            proof {
                                assert(self.cluster_kinds.deep_view()
                                    =~= old(self)@.cluster_kinds.push(mk@));
                            }
                        }
                        let req = self.next_req;
                        self.next_req = req + 1;
                        acts.push(
                            BrainAction::ClusterDeliver {
                                kind: mk,
                                ev: ClusterEvent::QueueServer { req },
                            },
                        );
                        acts.push(BrainAction::AwaitReply { req, player });
                        proof {
                            assert(acts.deep_view() =~= spec_brain_step(
                                old(self)@,
                                msg.deep_view(),
                            ).1);
                        }
                    },
                    _ => {
                        proof {
                            assert(acts.deep_view() =~= Seq::<BrainActionView>::empty());
                        }
                    },
                }
                acts
            },
            BrainMsg::ClusterForward { minigame_kind, msg: ev } => {
                if self.has_cluster(minigame_kind.as_str()) {
                    acts.push(BrainAction::ClusterDeliver { kind: minigame_kind, ev });
                }
                proof {
                    assert(acts.deep_view() =~= spec_brain_step(old(self)@, msg.deep_view()).1);
                }
                acts
            },
            BrainMsg::Spawn { kind } => {
                let base = kind.display_name();
                let server_name = self.used_names.next_free_name(base.as_str());
                proof {
                    let n = choose|n: nat|
                        server_name@ == name_with_index(base@, n) && (forall|m: nat|
                            m < n ==> old(self)@.used_names.contains(name_with_index(base@, m)));
                    lemma_first_free_unique(old(self)@.used_names, base@, n);
                }
                self.statuses.set_status(server_name.as_str(), ComputerStatus::Starting);
                acts.push(
                    BrainAction::SetStatus {
                        name: server_name.clone(),
                        status: ComputerStatus::Starting,
                    },
                );
                let plan = spawn_plan(server_name.as_str(), &kind);
                acts.push(
                    BrainAction::SpawnContainer {
                        name: server_name,
                        env: plan.env,
                        image: plan.image,
                    },
                );
                proof {
                    assert(acts.deep_view() =~= spec_brain_step(old(self)@, msg.deep_view()).1);
                }
                acts
            },
            BrainMsg::Transport { player, server } => {
                acts.push(
                    BrainAction::SendProxy {
                        packet: Packet::TransportPlayer { player, to: server.0 },
                    },
                );
                proof {
                    assert(acts.deep_view() =~= spec_brain_step(old(self)@, msg.deep_view()).1);
                }
                acts
            },
        }
    }
}


// ---------------------------------------------------------------------------
// Laws of the brain.
// ---------------------------------------------------------------------------
/// The name set tracks the registry exactly: a name is recorded if and only
/// if the registry holds a status for it. Since the registry stores `Online`
/// for connected servers and `Starting` for spawn-allocated ones (and
/// `Offline` never), the unique-name set contains exactly the names of
/// currently connected servers plus the allocated names whose containers
/// have not yet connected.
pub open spec fn names_match_registry(s: BrainStateView) -> bool {
    s.used_names == s.statuses.dom()
}

/// Every brain step preserves [`names_match_registry`]: it holds of the
/// initial state and every transition records and marks, or releases and
/// removes, together.
pub proof fn lemma_names_match_registry_preserved(pre: BrainStateView, msg: BrainMsgView)
    requires
        names_match_registry(pre),
    ensures
        names_match_registry(spec_brain_step(pre, msg).0),
{
    broadcast use vstd::map::group_map_axioms;
    broadcast use vstd::set::group_set_axioms;

    let post = spec_brain_step(pre, msg).0;
    assert(post.used_names =~= post.statuses.dom());
}

/// An `UnlinkServer` packet for `name` in a step's actions.
pub open spec fn is_proxy_unlink(a: BrainActionView, name: Seq<char>) -> bool {
    match a {
        BrainActionView::SendProxy { packet: PacketView::UnlinkServer { name: n } } => n == name,
        _ => false,
    }
}

/// A `LinkServer` packet for `name` in a step's actions.
pub open spec fn is_proxy_link(a: BrainActionView, name: Seq<char>) -> bool {
    match a {
        BrainActionView::SendProxy { packet: PacketView::LinkServer { name: n, .. } } => n == name,
        _ => false,
    }
}

/// The `Unlink` of a non-proxy connection with this name.
pub open spec fn is_unlink_of(msg: BrainMsgView, name: Seq<char>) -> bool {
    match msg {
        BrainMsgView::Unlink { conn } => conn.name == name && !(conn.kind is Proxy),
        _ => false,
    }
}

/// The `NewConn` of a connection with this name.
pub open spec fn is_new_conn_of(msg: BrainMsgView, name: Seq<char>) -> bool {
    match msg {
        BrainMsgView::NewConn { conn, .. } => conn.name == name,
        _ => false,
    }
}

/// Link/unlink discipline: one step sends the proxy at most one
/// `UnlinkServer` for a name, and only while handling the `Unlink` of that
/// very connection; likewise at most one `LinkServer`, and only while
/// handling its `NewConn`. So along any run, `UnlinkServer{name}` packets
/// are at most as many as the `Unlink{name}` events, which a session emits
/// exactly once; each `LinkServer` is thus followed by at most one
/// `UnlinkServer` for that name.
pub proof fn lemma_link_unlink_discipline(pre: BrainStateView, msg: BrainMsgView, name: Seq<char>)
    ensures
        ({
            let acts = spec_brain_step(pre, msg).1;
            &&& forall|i: int, j: int|
                0 <= i < acts.len() && 0 <= j < acts.len() && is_proxy_unlink(#[trigger] acts[i], name)
                    && is_proxy_unlink(#[trigger] acts[j], name) ==> i == j
            &&& forall|i: int|
                0 <= i < acts.len() && is_proxy_unlink(#[trigger] acts[i], name)
                    ==> is_unlink_of(msg, name)
            &&& forall|i: int, j: int|
                0 <= i < acts.len() && 0 <= j < acts.len() && is_proxy_link(#[trigger] acts[i], name)
                    && is_proxy_link(#[trigger] acts[j], name) ==> i == j
            &&& forall|i: int|
                0 <= i < acts.len() && is_proxy_link(#[trigger] acts[i], name)
                    ==> is_new_conn_of(msg, name)
        }),
{
}

} // verus!
