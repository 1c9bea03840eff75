//! Session handshake and packet translation.

use controller::brain::{BrainMsg, ConnectionInfo};
use controller::cluster::ClusterEvent;
use controller::packet::{Kind, Packet};
use controller::session::{
    classify_handshake, parse_port, translate_packet, HandshakeError, Translation,
};

fn minigame_conn() -> ConnectionInfo {
    ConnectionInfo {
        name: "m-0".to_string(),
        kind: Kind::Minigame { kind: "bedwars".to_string() },
        host: "172.18.0.9".to_string(),
        port: 25565,
    }
}

#[test]
fn parse_port_reads_the_self_reported_port() {
    assert_eq!(parse_port("127.0.0.1:25565"), Some(25565));
    assert_eq!(parse_port("/127.0.0.1:25565/"), Some(25565));
    assert_eq!(parse_port("[::1]:80"), Some(80));
    assert_eq!(parse_port("example:0"), Some(0));
    assert_eq!(parse_port("host:65535"), Some(65535));
}

#[test]
fn parse_port_rejects_malformed_addresses() {
    assert_eq!(parse_port(""), None);
    assert_eq!(parse_port("127.0.0.1"), None);
    assert_eq!(parse_port("host:"), None);
    assert_eq!(parse_port("host:12x"), None);
    assert_eq!(parse_port("host:65536"), None);
    assert_eq!(parse_port("host:99999999999"), None);
}

#[test]
fn handshake_accepts_an_authentication() {
    let packet = Packet::Authentication {
        name: "m-0".to_string(),
        kind: Kind::Minigame { kind: "bedwars".to_string() },
        ip: "/10.1.2.3:25565".to_string(),
    };
    let conn = classify_handshake(packet, "172.18.0.9".to_string()).unwrap();
    assert_eq!(conn.name, "m-0");
    assert_eq!(conn.kind, Kind::Minigame { kind: "bedwars".to_string() });
    // the accepted peer's host, the self-reported port
    assert_eq!(conn.host, "172.18.0.9");
    assert_eq!(conn.port, 25565);
}

#[test]
fn handshake_rejects_other_first_packets() {
    let r = classify_handshake(Packet::Ping { timer: 0 }, "h".to_string());
    assert_eq!(r, Err(HandshakeError::NotAuthentication(Packet::Ping { timer: 0 })));
}

#[test]
fn handshake_rejects_unusable_addresses() {
    let packet = Packet::Authentication {
        name: "m-0".to_string(),
        kind: Kind::Lobby,
        ip: "no-port-here".to_string(),
    };
    assert_eq!(classify_handshake(packet, "h".to_string()), Err(HandshakeError::BadAddress));
}

#[test]
fn requests_become_dispatches() {
    let t = translate_packet(
        &minigame_conn(),
        Packet::Request { kind: Kind::Lobby, player: Some("p1".to_string()) },
    );
    assert_eq!(
        t,
        Translation::Forward(
            BrainMsg::Dispatch { kind: Kind::Lobby, player: Some("p1".to_string()) },
        )
    );
}

#[test]
fn minigame_pong_and_update_active_go_to_the_cluster() {
    let t = translate_packet(&minigame_conn(), Packet::Pong { timer: 3 });
    assert_eq!(
        t,
        Translation::Forward(
            BrainMsg::ClusterForward {
                minigame_kind: "bedwars".to_string(),
                msg: ClusterEvent::ServerPong { timer: 3, name: "m-0".to_string() },
            },
        )
    );
    let t = translate_packet(&minigame_conn(), Packet::UpdateActive { active: false });
    assert_eq!(
        t,
        Translation::Forward(
            BrainMsg::ClusterForward {
                minigame_kind: "bedwars".to_string(),
                msg: ClusterEvent::UpdateActive { name: "m-0".to_string(), active: false },
            },
        )
    );
}

#[test]
fn non_minigame_pong_is_spurious() {
    let lobby = ConnectionInfo {
        name: "lobby-0".to_string(),
        kind: Kind::Lobby,
        host: "h".to_string(),
        port: 1,
    };
    let t = translate_packet(&lobby, Packet::Pong { timer: 0 });
    assert_eq!(t, Translation::Spurious(Packet::Pong { timer: 0 }));
}

#[test]
fn second_authentication_is_spurious() {
    let packet = Packet::Authentication {
        name: "again".to_string(),
        kind: Kind::Lobby,
        ip: "1.2.3.4:1".to_string(),
    };
    let t = translate_packet(&minigame_conn(), packet);
    let expected = Packet::Authentication {
        name: "again".to_string(),
        kind: Kind::Lobby,
        ip: "1.2.3.4:1".to_string(),
    };
    assert_eq!(t, Translation::Spurious(expected));
}

#[test]
fn priorities_rank_lobby_over_limbo_over_minigame() {
    assert_eq!(Kind::Lobby.priority(), 2);
    assert_eq!(Kind::Limbo.priority(), 1);
    assert_eq!(Kind::Minigame { kind: "bedwars".to_string() }.priority(), 0);
}

#[test]
fn display_names_are_the_spawn_basenames() {
    assert_eq!(Kind::Limbo.display_name(), "limbo");
    assert_eq!(Kind::Proxy.display_name(), "proxy");
    assert_eq!(Kind::Lobby.display_name(), "lobby");
    assert_eq!(
        Kind::Minigame { kind: "bedwars".to_string() }.display_name(),
        "minigame-bedwars"
    );
}
