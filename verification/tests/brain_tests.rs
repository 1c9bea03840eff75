//! The brain's dispatch state, driven through the concrete scenarios.

use controller::brain::{BrainAction, BrainMsg, BrainPhase, BrainState, ConnectionInfo};
use controller::cluster::{ClusterAction, ClusterEvent, ClusterState};
use controller::packet::{Kind, Packet, ServerName};
use controller::registry::ComputerStatus;
use controller::session::{translate_packet, Translation};

fn conn(name: &str, kind: Kind) -> ConnectionInfo {
    ConnectionInfo { name: name.to_string(), kind, host: "172.18.0.9".to_string(), port: 25565 }
}

fn connect_proxy(b: &mut BrainState) {
    let acts = b.step(BrainMsg::NewConn { conn: conn("proxy", Kind::Proxy), writer: 0 });
    assert_eq!(
        acts,
        vec![
            BrainAction::SetStatus { name: "proxy".to_string(), status: ComputerStatus::Online },
            BrainAction::Reinject { msgs: vec![] },
        ]
    );
}

#[test]
fn startup_buffers_until_proxy_connects() {
    let mut b = BrainState::new();
    assert_eq!(b.phase, BrainPhase::WaitingForProxy);
    let acts = b.step(BrainMsg::Spawn { kind: Kind::Lobby });
    assert!(acts.is_empty());
    let acts = b.step(BrainMsg::NewConn { conn: conn("proxy", Kind::Proxy), writer: 0 });
    // the proxy's arrival replays the buffered spawn
    assert_eq!(acts.len(), 2);
    match &acts[1] {
        BrainAction::Reinject { msgs } => {
            assert_eq!(msgs.len(), 1);
            assert!(matches!(msgs[0], BrainMsg::Spawn { kind: Kind::Lobby }));
        },
        other => panic!("expected a replay, got {other:?}"),
    }
    assert_eq!(b.phase, BrainPhase::Steady);
}

#[test]
fn new_minigame_connection_is_linked_and_handed_to_its_cluster() {
    let mut b = BrainState::new();
    connect_proxy(&mut b);
    let acts = b.step(
        BrainMsg::NewConn {
            conn: conn("m-0", Kind::Minigame { kind: "bedwars".to_string() }),
            writer: 1,
        },
    );
    assert_eq!(
        acts,
        vec![
            BrainAction::SetStatus { name: "m-0".to_string(), status: ComputerStatus::Online },
            BrainAction::CreateCluster { kind: "bedwars".to_string() },
            BrainAction::ClusterDeliver {
                kind: "bedwars".to_string(),
                ev: ClusterEvent::PushServer { name: "m-0".to_string(), active: true },
            },
            BrainAction::SendProxy {
                packet: Packet::LinkServer {
                    name: "m-0".to_string(),
                    address: "172.18.0.9".to_string(),
                    port: 25565,
                    priority: 0,
                },
            },
        ]
    );
}

#[test]
fn lobby_priority_is_two() {
    let mut b = BrainState::new();
    connect_proxy(&mut b);
    let acts = b.step(BrainMsg::NewConn { conn: conn("lobby-0", Kind::Lobby), writer: 1 });
    match &acts[1] {
        BrainAction::SendProxy { packet: Packet::LinkServer { priority, .. } } => {
            assert_eq!(*priority, 2)
        },
        other => panic!("expected a link, got {other:?}"),
    }
    assert_eq!(b.lobby_writer, Some(1));
}

#[test]
fn proxy_duplicate_is_shut_down() {
    // a second proxy connection gets its write-half shut down, is not linked,
    // and the original proxy stays authoritative
    let mut b = BrainState::new();
    connect_proxy(&mut b);
    let acts = b.step(BrainMsg::NewConn { conn: conn("proxy", Kind::Proxy), writer: 9 });
    assert_eq!(acts, vec![BrainAction::ShutdownWriter { writer: 9 }]);
    assert_eq!(b.proxy_writer, Some(0));
}

#[test]
fn unlink_releases_name_and_tells_proxy_and_cluster() {
    let mut b = BrainState::new();
    connect_proxy(&mut b);
    let mg = Kind::Minigame { kind: "bedwars".to_string() };
    b.step(BrainMsg::NewConn { conn: conn("m-0", mg), writer: 1 });
    let acts = b.step(
        BrainMsg::Unlink { conn: conn("m-0", Kind::Minigame { kind: "bedwars".to_string() }) },
    );
    assert_eq!(
        acts,
        vec![
            BrainAction::SetStatus { name: "m-0".to_string(), status: ComputerStatus::Offline },
            BrainAction::SendProxy {
                packet: Packet::UnlinkServer { name: "m-0".to_string() },
            },
            BrainAction::ClusterDeliver {
                kind: "bedwars".to_string(),
                ev: ClusterEvent::PopServer { name: "m-0".to_string() },
            },
        ]
    );
}

#[test]
fn proxy_unlink_is_fatal() {
    let mut b = BrainState::new();
    connect_proxy(&mut b);
    let acts = b.step(BrainMsg::Unlink { conn: conn("proxy", Kind::Proxy) });
    assert_eq!(acts.len(), 2);
    assert_eq!(acts[1], BrainAction::Fatal);
}

#[test]
fn dispatch_queues_fresh_tickets_and_awaits_replies() {
    let mut b = BrainState::new();
    connect_proxy(&mut b);
    let acts = b.step(
        BrainMsg::Dispatch {
            kind: Kind::Minigame { kind: "bedwars".to_string() },
            player: Some("p1".to_string()),
        },
    );
    assert_eq!(
        acts,
        vec![
            BrainAction::CreateCluster { kind: "bedwars".to_string() },
            BrainAction::ClusterDeliver {
                kind: "bedwars".to_string(),
                ev: ClusterEvent::QueueServer { req: 0 },
            },
            BrainAction::AwaitReply { req: 0, player: Some("p1".to_string()) },
        ]
    );
    // the next dispatch gets a fresh ticket and no second cluster
    let acts = b.step(
        BrainMsg::Dispatch { kind: Kind::Minigame { kind: "bedwars".to_string() }, player: None },
    );
    assert_eq!(
        acts,
        vec![
            BrainAction::ClusterDeliver {
                kind: "bedwars".to_string(),
                ev: ClusterEvent::QueueServer { req: 1 },
            },
            BrainAction::AwaitReply { req: 1, player: None },
        ]
    );
}

#[test]
fn dispatch_for_limbo_proxy_and_lobby_is_dropped() {
    let mut b = BrainState::new();
    connect_proxy(&mut b);
    for kind in [Kind::Limbo, Kind::Proxy, Kind::Lobby] {
        let acts = b.step(BrainMsg::Dispatch { kind, player: Some("p1".to_string()) });
        assert!(acts.is_empty());
    }
}

#[test]
fn spawned_names_count_up_and_freed_names_are_reused() {
    // three rapid spawns allocate minigame-bedwars-0, -1, -2; freeing -1
    // makes the next spawn reuse it before -3
    let mut b = BrainState::new();
    connect_proxy(&mut b);
    let mg = || Kind::Minigame { kind: "bedwars".to_string() };
    let spawned_name = |acts: &Vec<BrainAction>| -> String {
        match &acts[1] {
            BrainAction::SpawnContainer { name, .. } => name.clone(),
            other => panic!("expected a container plan, got {other:?}"),
        }
    };
    let acts = b.step(BrainMsg::Spawn { kind: mg() });
    assert_eq!(spawned_name(&acts), "minigame-bedwars-0");
    let acts = b.step(BrainMsg::Spawn { kind: mg() });
    assert_eq!(spawned_name(&acts), "minigame-bedwars-1");
    let acts = b.step(BrainMsg::Spawn { kind: mg() });
    assert_eq!(spawned_name(&acts), "minigame-bedwars-2");

    b.step(BrainMsg::Unlink { conn: conn("minigame-bedwars-1", mg()) });
    let acts = b.step(BrainMsg::Spawn { kind: mg() });
    assert_eq!(spawned_name(&acts), "minigame-bedwars-1");
    let acts = b.step(BrainMsg::Spawn { kind: mg() });
    assert_eq!(spawned_name(&acts), "minigame-bedwars-3");
}

#[test]
fn spawn_plans_carry_environment_and_image() {
    let mut b = BrainState::new();
    connect_proxy(&mut b);
    let acts = b.step(BrainMsg::Spawn { kind: Kind::Minigame { kind: "bedwars".to_string() } });
    assert_eq!(
        acts[0],
        BrainAction::SetStatus {
            name: "minigame-bedwars-0".to_string(),
            status: ComputerStatus::Starting,
        }
    );
    match &acts[1] {
        BrainAction::SpawnContainer { name, env, image } => {
            assert_eq!(name, "minigame-bedwars-0");
            assert_eq!(
                env,
                &vec![
                    "CONTROLLER_IP=controller".to_string(),
                    "SERVER_NAME=minigame-bedwars-0".to_string(),
                    "SERVER_KIND=Minigame".to_string(),
                    "MINIGAME_KIND=bedwars".to_string(),
                ]
            );
            assert_eq!(image, "ems-minigame");
        },
        other => panic!("expected a container plan, got {other:?}"),
    }

    let acts = b.step(BrainMsg::Spawn { kind: Kind::Lobby });
    match &acts[1] {
        BrainAction::SpawnContainer { name, env, image } => {
            assert_eq!(name, "lobby-0");
            assert_eq!(
                env,
                &vec![
                    "CONTROLLER_IP=controller".to_string(),
                    "SERVER_NAME=lobby-0".to_string(),
                    "SERVER_KIND=Lobby".to_string(),
                ]
            );
            assert_eq!(image, "ems-lobby");
        },
        other => panic!("expected a container plan, got {other:?}"),
    }
}

#[test]
fn transport_goes_to_the_proxy() {
    let mut b = BrainState::new();
    connect_proxy(&mut b);
    let acts = b.step(
        BrainMsg::Transport {
            player: "p1".to_string(),
            server: ServerName("m-0".to_string()),
        },
    );
    assert_eq!(
        acts,
        vec![
            BrainAction::SendProxy {
                packet: Packet::TransportPlayer { player: "p1".to_string(), to: "m-0".to_string() },
            },
        ]
    );
}

#[test]
fn cluster_forward_needs_an_existing_cluster() {
    let mut b = BrainState::new();
    connect_proxy(&mut b);
    let acts = b.step(
        BrainMsg::ClusterForward {
            minigame_kind: "bedwars".to_string(),
            msg: ClusterEvent::ServerPong { timer: 0, name: "m-0".to_string() },
        },
    );
    assert!(acts.is_empty());
    b.step(BrainMsg::Dispatch { kind: Kind::Minigame { kind: "bedwars".to_string() }, player: None });
    let acts = b.step(
        BrainMsg::ClusterForward {
            minigame_kind: "bedwars".to_string(),
            msg: ClusterEvent::ServerPong { timer: 0, name: "m-0".to_string() },
        },
    );
    assert_eq!(acts.len(), 1);
}

#[test]
fn full_dispatch_pipeline_transports_the_player() {
    // scenario: proxy and an active "m-0" are connected; a request for a
    // bedwars server arrives with player "p1"; "m-0" answers the ping; the
    // proxy is told to link first and to transport last
    let mut brain = BrainState::new();
    connect_proxy(&mut brain);

    let m0 = conn("m-0", Kind::Minigame { kind: "bedwars".to_string() });
    let acts = brain.step(BrainMsg::NewConn { conn: m0, writer: 1 });
    let mut cluster = ClusterState::new("bedwars".to_string());
    let mut proxy_sent: Vec<Packet> = Vec::new();
    let mut cluster_acts: Vec<ClusterAction> = Vec::new();
    for act in acts {
        match act {
            BrainAction::SendProxy { packet } => proxy_sent.push(packet),
            BrainAction::ClusterDeliver { ev, .. } => cluster_acts.extend(cluster.step(ev)),
            _ => {},
        }
    }
    assert!(matches!(
        proxy_sent[0],
        Packet::LinkServer { ref name, priority: 0, .. } if name == "m-0"
    ));

    // the session translates the request; the brain queues it on the cluster
    let t = translate_packet(
        &conn("lobby-0", Kind::Lobby),
        Packet::Request {
            kind: Kind::Minigame { kind: "bedwars".to_string() },
            player: Some("p1".to_string()),
        },
    );
    let msg = match t {
        Translation::Forward(msg) => msg,
        other => panic!("expected a forward, got {other:?}"),
    };
    let mut awaiting: Option<(u64, Option<String>)> = None;
    for act in brain.step(msg) {
        match act {
            BrainAction::ClusterDeliver { ev, .. } => cluster_acts.extend(cluster.step(ev)),
            BrainAction::AwaitReply { req, player } => awaiting = Some((req, player)),
            _ => {},
        }
    }
    assert!(matches!(
        cluster_acts[0],
        ClusterAction::Ping { ref name, timer: 0 } if name == "m-0"
    ));

    // "m-0" answers the ping of epoch zero
    let t = translate_packet(
        &conn("m-0", Kind::Minigame { kind: "bedwars".to_string() }),
        Packet::Pong { timer: 0 },
    );
    let msg = match t {
        Translation::Forward(msg) => msg,
        other => panic!("expected a forward, got {other:?}"),
    };
    let mut resolved: Option<ServerName> = None;
    for act in brain.step(msg) {
        if let BrainAction::ClusterDeliver { ev, .. } = act {
            for cact in cluster.step(ev) {
                if let ClusterAction::Resolve { req, server } = cact {
                    assert_eq!(Some(req), awaiting.as_ref().map(|(r, _)| *r));
                    resolved = Some(server);
                }
            }
        }
    }
    let server = resolved.expect("the pong resolves the request");
    assert_eq!(server.0, "m-0");

    // the awaiting task sends the transport
    let (_, player) = awaiting.unwrap();
    let acts = brain.step(BrainMsg::Transport { player: player.unwrap(), server });
    assert_eq!(
        acts,
        vec![
            BrainAction::SendProxy {
                packet: Packet::TransportPlayer { player: "p1".to_string(), to: "m-0".to_string() },
            },
        ]
    );
}
