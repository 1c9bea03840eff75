//! The cluster state machine, driven through the concrete scenarios.

use controller::cluster::{ClusterAction, ClusterEvent, ClusterState, QueueState};
use controller::packet::ServerName;

fn bedwars_cluster() -> ClusterState {
    ClusterState::new("bedwars".to_string())
}

#[test]
fn happy_path_existing_active_server() {
    // an active server answers the ping of the current epoch
    let mut c = bedwars_cluster();
    let acts = c.step(ClusterEvent::PushServer { name: "m-0".to_string(), active: true });
    assert!(acts.is_empty());

    let acts = c.step(ClusterEvent::QueueServer { req: 7 });
    assert_eq!(
        acts,
        vec![
            ClusterAction::Ping { name: "m-0".to_string(), timer: 0 },
            ClusterAction::StartTimer { timer: 0 },
        ]
    );
    assert_eq!(c.state, QueueState::RecvPong { req: 7 });

    let acts = c.step(ClusterEvent::ServerPong { timer: 0, name: "m-0".to_string() });
    assert_eq!(
        acts,
        vec![ClusterAction::Resolve { req: 7, server: ServerName("m-0".to_string()) }]
    );
    assert_eq!(c.state, QueueState::Idle);
    assert_eq!(c.timer_now, 1);
}

#[test]
fn inactive_server_is_not_pinged() {
    let mut c = bedwars_cluster();
    c.step(ClusterEvent::PushServer { name: "m-0".to_string(), active: true });
    c.step(ClusterEvent::UpdateActive { name: "m-0".to_string(), active: false });
    let acts = c.step(ClusterEvent::QueueServer { req: 1 });
    assert_eq!(acts, vec![ClusterAction::StartTimer { timer: 0 }]);
}

#[test]
fn timeout_spawns_new_server() {
    // no pong arrives: the timer closes the epoch and asks for a fresh server,
    // which resolves the request when it connects
    let mut c = bedwars_cluster();
    c.step(ClusterEvent::PushServer { name: "m-0".to_string(), active: false });
    let acts = c.step(ClusterEvent::QueueServer { req: 1 });
    assert_eq!(acts, vec![ClusterAction::StartTimer { timer: 0 }]);

    let acts = c.step(ClusterEvent::TimerCompleted { timer: 0 });
    assert_eq!(acts, vec![ClusterAction::SpawnNew]);
    assert_eq!(c.state, QueueState::Starting { req: 1 });
    assert_eq!(c.timer_now, 1);

    let acts = c.step(
        ClusterEvent::PushServer { name: "minigame-bedwars-0".to_string(), active: true },
    );
    assert_eq!(
        acts,
        vec![
            ClusterAction::Resolve { req: 1, server: ServerName("minigame-bedwars-0".to_string()) },
        ]
    );
    assert_eq!(c.state, QueueState::Idle);
}

#[test]
fn late_pong_is_ignored() {
    // after the timeout advanced the epoch, the old epoch's pong does nothing
    let mut c = bedwars_cluster();
    c.step(ClusterEvent::PushServer { name: "m-0".to_string(), active: false });
    c.step(ClusterEvent::QueueServer { req: 1 });
    c.step(ClusterEvent::TimerCompleted { timer: 0 });

    let acts = c.step(ClusterEvent::ServerPong { timer: 0, name: "m-0".to_string() });
    assert!(acts.is_empty());
    assert_eq!(c.state, QueueState::Starting { req: 1 });

    // the request is still resolved by the fresh server, not by "m-0"
    let acts = c.step(
        ClusterEvent::PushServer { name: "minigame-bedwars-0".to_string(), active: true },
    );
    assert_eq!(
        acts,
        vec![
            ClusterAction::Resolve { req: 1, server: ServerName("minigame-bedwars-0".to_string()) },
        ]
    );
}

#[test]
fn concurrent_requests_are_serialised() {
    // the second request buffers while the first is in flight; resolving the
    // first re-injects the second
    let mut c = bedwars_cluster();
    c.step(ClusterEvent::PushServer { name: "m-0".to_string(), active: true });
    let acts = c.step(ClusterEvent::QueueServer { req: 1 });
    assert_eq!(acts.len(), 2);
    let acts = c.step(ClusterEvent::QueueServer { req: 2 });
    assert!(acts.is_empty());
    assert_eq!(c.queue_reqs, vec![2]);

    let acts = c.step(ClusterEvent::ServerPong { timer: 0, name: "m-0".to_string() });
    assert_eq!(
        acts,
        vec![
            ClusterAction::Resolve { req: 1, server: ServerName("m-0".to_string()) },
            ClusterAction::Requeue { req: 2 },
        ]
    );
    assert_eq!(c.timer_now, 1);

    // the shell re-injects the second request; the new epoch serves it
    let acts = c.step(ClusterEvent::QueueServer { req: 2 });
    assert_eq!(
        acts,
        vec![
            ClusterAction::Ping { name: "m-0".to_string(), timer: 1 },
            ClusterAction::StartTimer { timer: 1 },
        ]
    );
    let acts = c.step(ClusterEvent::ServerPong { timer: 1, name: "m-0".to_string() });
    assert_eq!(
        acts,
        vec![ClusterAction::Resolve { req: 2, server: ServerName("m-0".to_string()) }]
    );
}

#[test]
fn pop_server_removes_first_match_only() {
    let mut c = bedwars_cluster();
    c.step(ClusterEvent::PushServer { name: "m-0".to_string(), active: true });
    c.step(ClusterEvent::PushServer { name: "m-1".to_string(), active: true });
    let acts = c.step(ClusterEvent::PopServer { name: "m-0".to_string() });
    assert!(acts.is_empty());
    assert_eq!(c.servers.len(), 1);
    assert_eq!(c.servers[0].name, "m-1");
    // a miss is a no-op
    let acts = c.step(ClusterEvent::PopServer { name: "m-7".to_string() });
    assert!(acts.is_empty());
    assert_eq!(c.servers.len(), 1);
}

#[test]
fn epoch_wraps_at_i32_max() {
    // drive timer_now to i32::MAX by hand, then close an epoch: the counter
    // wraps to i32::MIN and the old epoch's messages stay dead
    let mut c = bedwars_cluster();
    c.timer_now = i32::MAX;
    c.step(ClusterEvent::PushServer { name: "m-0".to_string(), active: true });
    c.step(ClusterEvent::QueueServer { req: 1 });
    let acts = c.step(ClusterEvent::ServerPong { timer: i32::MAX, name: "m-0".to_string() });
    assert_eq!(
        acts,
        vec![ClusterAction::Resolve { req: 1, server: ServerName("m-0".to_string()) }]
    );
    assert_eq!(c.timer_now, i32::MIN);

    // stale messages of the pre-wrap epoch are dropped
    let acts = c.step(ClusterEvent::ServerPong { timer: i32::MAX, name: "m-0".to_string() });
    assert!(acts.is_empty());
    let acts = c.step(ClusterEvent::TimerCompleted { timer: i32::MAX });
    assert!(acts.is_empty());

    // the wrapped epoch matches correctly
    let acts = c.step(ClusterEvent::QueueServer { req: 2 });
    assert_eq!(
        acts,
        vec![
            ClusterAction::Ping { name: "m-0".to_string(), timer: i32::MIN },
            ClusterAction::StartTimer { timer: i32::MIN },
        ]
    );
}

#[test]
fn simultaneous_pong_and_timer_resolve_once() {
    // pong first: the later timer of the same epoch is dropped
    let mut c = bedwars_cluster();
    c.step(ClusterEvent::PushServer { name: "m-0".to_string(), active: true });
    c.step(ClusterEvent::QueueServer { req: 1 });
    let acts = c.step(ClusterEvent::ServerPong { timer: 0, name: "m-0".to_string() });
    assert_eq!(acts.len(), 1);
    let acts = c.step(ClusterEvent::TimerCompleted { timer: 0 });
    assert!(acts.is_empty());

    // timer first: the later pong of the same epoch is dropped, no double
    // resolution
    let mut c = bedwars_cluster();
    c.step(ClusterEvent::PushServer { name: "m-0".to_string(), active: true });
    c.step(ClusterEvent::QueueServer { req: 1 });
    let acts = c.step(ClusterEvent::TimerCompleted { timer: 0 });
    assert_eq!(acts, vec![ClusterAction::SpawnNew]);
    let acts = c.step(ClusterEvent::ServerPong { timer: 0, name: "m-0".to_string() });
    assert!(acts.is_empty());
    assert_eq!(c.state, QueueState::Starting { req: 1 });
}
