//! Per-minigame-kind cluster: a state machine that fulfils "queue a player
//! into a running minigame of this kind" requests.
//!
//! The cluster is driven one event at a time. It pings its active members,
//! waits one epoch for the first volunteer, asks for a fresh server when the
//! epoch times out, and binds the next arriving server to the waiting
//! request. A wrapping 32-bit epoch counter (`timer_now`) makes every late
//! `ServerPong` or `TimerCompleted` a no-op. The shell that owns the channels
//! and sockets performs the returned [`ClusterAction`]s.

use vstd::multiset::Multiset;
use vstd::prelude::*;

use crate::packet::ServerName;

verus! {

/// One minigame server as the cluster sees it: its name and whether it is
/// currently willing to receive `Ping`s.
#[derive(Debug, PartialEq)]
pub struct MinigameServer {
    pub name: String,
    pub active: bool,
}

/// Mathematical image of a [`MinigameServer`].
pub struct MinigameServerView {
    pub name: Seq<char>,
    pub active: bool,
}

impl DeepView for MinigameServer {
    type V = MinigameServerView;

    open spec fn deep_view(&self) -> MinigameServerView {
        MinigameServerView { name: self.name@, active: self.active }
    }
}

/// Where the cluster stands with respect to queue requests. A request handle
/// is an opaque ticket (`req`); the shell maps it back to the caller that
/// awaits a [`ServerName`].
#[derive(Debug, Clone, Copy, PartialEq, Eq, Structural)]
pub enum QueueState {
    /// No queue request is being worked on.
    Idle,
    /// Pings for `req` are out; waiting for the first volunteer of the
    /// current epoch.
    RecvPong { req: u64 },
    /// The epoch timed out; a fresh server was requested and `req` waits for
    /// it to connect.
    Starting { req: u64 },
}

/// An event delivered to the cluster.
#[derive(Debug, PartialEq)]
pub enum ClusterEvent {
    /// A connected minigame server of this kind was handed over.
    PushServer { name: String, active: bool },
    /// The server of that name disconnected.
    PopServer { name: String },
    /// The named server opts in or out of pings.
    UpdateActive { name: String, active: bool },
    /// A new queue request, under the fresh ticket `req`.
    QueueServer { req: u64 },
    /// A `Pong{timer}` arrived from the named server.
    ServerPong { timer: i32, name: String },
    /// The one-shot timer scheduled for epoch `timer` fired.
    TimerCompleted { timer: i32 },
}

/// Mathematical image of a [`ClusterEvent`].
pub enum ClusterEventView {
    PushServer { name: Seq<char>, active: bool },
    PopServer { name: Seq<char> },
    UpdateActive { name: Seq<char>, active: bool },
    QueueServer { req: u64 },
    ServerPong { timer: i32, name: Seq<char> },
    TimerCompleted { timer: i32 },
}

impl View for ClusterEvent {
    type V = ClusterEventView;

    open spec fn view(&self) -> ClusterEventView {
        match self {
            ClusterEvent::PushServer { name, active } => ClusterEventView::PushServer {
                name: name@,
                active: *active,
            },
            ClusterEvent::PopServer { name } => ClusterEventView::PopServer { name: name@ },
            ClusterEvent::UpdateActive { name, active } => ClusterEventView::UpdateActive {
                name: name@,
                active: *active,
            },
            ClusterEvent::QueueServer { req } => ClusterEventView::QueueServer { req: *req },
            ClusterEvent::ServerPong { timer, name } => ClusterEventView::ServerPong {
                timer: *timer,
                name: name@,
            },
            ClusterEvent::TimerCompleted { timer } => ClusterEventView::TimerCompleted {
                timer: *timer,
            },
        }
    }
}

/// What the shell must do after a step, in order.
#[derive(Debug, PartialEq)]
pub enum ClusterAction {
    /// Deliver `server` to the caller that holds ticket `req`.
    Resolve { req: u64, server: ServerName },
    /// Send `Ping{timer}` to the named member (failures are logged, not
    /// fatal).
    Ping { name: String, timer: i32 },
    /// Schedule a `TimerCompleted{timer}` event for one second from now.
    StartTimer { timer: i32 },
    /// Re-inject `QueueServer{req}` into this cluster's own queue.
    Requeue { req: u64 },
    /// Ask the brain to spawn a fresh server of this cluster's kind.
    SpawnNew,
}

/// Mathematical image of a [`ClusterAction`].
pub enum ClusterActionView {
    Resolve { req: u64, server: Seq<char> },
    Ping { name: Seq<char>, timer: i32 },
    StartTimer { timer: i32 },
    Requeue { req: u64 },
    SpawnNew,
}

impl DeepView for ClusterAction {
    type V = ClusterActionView;

    open spec fn deep_view(&self) -> ClusterActionView {
        match self {
            ClusterAction::Resolve { req, server } => ClusterActionView::Resolve {
                req: *req,
                server: server@,
            },
            ClusterAction::Ping { name, timer } => ClusterActionView::Ping {
                name: name@,
                timer: *timer,
            },
            ClusterAction::StartTimer { timer } => ClusterActionView::StartTimer { timer: *timer },
            ClusterAction::Requeue { req } => ClusterActionView::Requeue { req: *req },
            ClusterAction::SpawnNew => ClusterActionView::SpawnNew,
        }
    }
}

/// The whole state of one cluster.
pub struct ClusterState {
    /// The minigame kind this cluster serves.
    pub kind: String,
    /// Connected members, in insertion order.
    pub servers: Vec<MinigameServer>,
    /// The queue-request slot.
    pub state: QueueState,
    /// Deferred queue requests, front first.
    pub queue_reqs: Vec<u64>,
    /// The wrapping epoch counter.
    pub timer_now: i32,
}

/// Mathematical image of a [`ClusterState`].
pub struct ClusterStateView {
    pub kind: Seq<char>,
    pub servers: Seq<MinigameServerView>,
    pub state: QueueState,
    pub queue_reqs: Seq<u64>,
    pub timer_now: i32,
}

impl View for ClusterState {
    type V = ClusterStateView;

    open spec fn view(&self) -> ClusterStateView {
        ClusterStateView {
            kind: self.kind@,
            servers: self.servers.deep_view(),
            state: self.state,
            queue_reqs: self.queue_reqs@,
            timer_now: self.timer_now,
        }
    }
}

/// The epoch counter after one advance: plus one, wrapping at `i32::MAX`.
pub open spec fn wrap_incr(t: i32) -> i32 {
    if t == i32::MAX {
        i32::MIN
    } else {
        (t + 1) as i32
    }
}

/// True iff some member has this name.
pub open spec fn has_server(servers: Seq<MinigameServerView>, name: Seq<char>) -> bool {
    exists|i: int| 0 <= i < servers.len() && servers[i].name == name
}

/// Index of the first member with this name.
pub open spec fn first_server_index(servers: Seq<MinigameServerView>, name: Seq<char>) -> int
    decreases servers.len(),
{
    if servers.len() == 0 {
        0
    } else if servers[0].name == name {
        0
    } else {
        1 + first_server_index(servers.drop_first(), name)
    }
}

/// One `Ping{timer}` per active member, in insertion order.
pub open spec fn ping_actions(servers: Seq<MinigameServerView>, timer: i32) -> Seq<
    ClusterActionView,
>
    decreases servers.len(),
{
    if servers.len() == 0 {
        Seq::empty()
    } else {
        ping_actions(servers.drop_last(), timer) + if servers.last().active {
            seq![ClusterActionView::Ping { name: servers.last().name, timer }]
        } else {
            Seq::empty()
        }
    }
}

/// After a request resolves, the cluster pulls one deferred request back into
/// its own queue (if any is waiting).
pub open spec fn spec_drain_one(pre: ClusterStateView, acts: Seq<ClusterActionView>) -> (
    ClusterStateView,
    Seq<ClusterActionView>,
) {
    if pre.queue_reqs.len() == 0 {
        (pre, acts)
    } else {
        (
            ClusterStateView { queue_reqs: pre.queue_reqs.drop_first(), ..pre },
            acts.push(ClusterActionView::Requeue { req: pre.queue_reqs[0] }),
        )
    }
}

/// `PushServer`: append the member; if a request was waiting for a fresh
/// server, resolve it with this one and drain one deferred request.
pub open spec fn spec_push_server(pre: ClusterStateView, name: Seq<char>, active: bool) -> (
    ClusterStateView,
    Seq<ClusterActionView>,
) {
    let grown = ClusterStateView {
        servers: pre.servers.push(MinigameServerView { name, active }),
        ..pre
    };
    match pre.state {
        QueueState::Starting { req } => spec_drain_one(
            ClusterStateView { state: QueueState::Idle, ..grown },
            seq![ClusterActionView::Resolve { req, server: name }],
        ),
        _ => (grown, Seq::empty()),
    }
}

/// `PopServer`: remove the first member of that name; a miss is a no-op.
/// The request slot is never touched.
pub open spec fn spec_pop_server(pre: ClusterStateView, name: Seq<char>) -> (
    ClusterStateView,
    Seq<ClusterActionView>,
) {
    if has_server(pre.servers, name) {
        (
            ClusterStateView {
                servers: pre.servers.remove(first_server_index(pre.servers, name)),
                ..pre
            },
            Seq::empty(),
        )
    } else {
        (pre, Seq::empty())
    }
}

/// `UpdateActive`: flip the first member of that name; a miss is a no-op.
pub open spec fn spec_update_active(pre: ClusterStateView, name: Seq<char>, active: bool) -> (
    ClusterStateView,
    Seq<ClusterActionView>,
) {
    if has_server(pre.servers, name) {
        let i = first_server_index(pre.servers, name);
        (
            ClusterStateView {
                servers: pre.servers.update(i, MinigameServerView { name: pre.servers[i].name, active }),
                ..pre
            },
            Seq::empty(),
        )
    } else {
        (pre, Seq::empty())
    }
}

/// `QueueServer`: defer if a request is already in flight; otherwise ping
/// every active member with the current epoch and start the epoch timer.
/// The epoch counter is *not* advanced here.
pub open spec fn spec_queue_server(pre: ClusterStateView, req: u64) -> (
    ClusterStateView,
    Seq<ClusterActionView>,
) {
    if !(pre.state is Idle) {
        (ClusterStateView { queue_reqs: pre.queue_reqs.push(req), ..pre }, Seq::empty())
    } else {
        (
            ClusterStateView { state: QueueState::RecvPong { req }, ..pre },
            ping_actions(pre.servers, pre.timer_now).push(
                ClusterActionView::StartTimer { timer: pre.timer_now },
            ),
        )
    }
}

/// `ServerPong`: only the first pong of the current epoch, received while
/// waiting for pongs, resolves the request and advances the epoch; everything
/// else is stale and dropped.
pub open spec fn spec_server_pong(pre: ClusterStateView, timer: i32, name: Seq<char>) -> (
    ClusterStateView,
    Seq<ClusterActionView>,
) {
    if timer != pre.timer_now {
        (pre, Seq::empty())
    } else {
        match pre.state {
            QueueState::RecvPong { req } => spec_drain_one(
                ClusterStateView {
                    state: QueueState::Idle,
                    timer_now: wrap_incr(pre.timer_now),
                    ..pre
                },
                seq![ClusterActionView::Resolve { req, server: name }],
            ),
            _ => (pre, Seq::empty()),
        }
    }
}

/// `TimerCompleted`: if the epoch still matches and pongs are still awaited,
/// give up on the pings, advance the epoch and ask for a fresh server; the
/// pending request keeps waiting in `Starting`.
pub open spec fn spec_timer_completed(pre: ClusterStateView, timer: i32) -> (
    ClusterStateView,
    Seq<ClusterActionView>,
) {
    if timer != pre.timer_now {
        (pre, Seq::empty())
    } else {
        match pre.state {
            QueueState::RecvPong { req } => (
                ClusterStateView {
                    state: QueueState::Starting { req },
                    timer_now: wrap_incr(pre.timer_now),
                    ..pre
                },
                seq![ClusterActionView::SpawnNew],
            ),
            _ => (pre, Seq::empty()),
        }
    }
}

/// The complete transition relation of a cluster.
pub open spec fn spec_step(pre: ClusterStateView, ev: ClusterEventView) -> (
    ClusterStateView,
    Seq<ClusterActionView>,
) {
    match ev {
        ClusterEventView::PushServer { name, active } => spec_push_server(pre, name, active),
        ClusterEventView::PopServer { name } => spec_pop_server(pre, name),
        ClusterEventView::UpdateActive { name, active } => spec_update_active(pre, name, active),
        ClusterEventView::QueueServer { req } => spec_queue_server(pre, req),
        ClusterEventView::ServerPong { timer, name } => spec_server_pong(pre, timer, name),
        ClusterEventView::TimerCompleted { timer } => spec_timer_completed(pre, timer),
    }
}

impl ClusterState {
    /// A fresh cluster: no members, idle, epoch zero.
    pub fn new(kind: String) -> (r: ClusterState)
        ensures
            r@.kind == kind@,
            r@.servers == Seq::<MinigameServerView>::empty(),
            r@.state == QueueState::Idle,
            r@.queue_reqs == Seq::<u64>::empty(),
            r@.timer_now == 0i32,
    {
        ClusterState {
            kind,
            servers: Vec::new(),
            state: QueueState::Idle,
            queue_reqs: Vec::new(),
            timer_now: 0,
        }
    }

    /// Drive the cluster by one event; the returned actions are performed by
    /// the shell in order. The behaviour is exactly [`spec_step`].
    pub fn step(&mut self, ev: ClusterEvent) -> (acts: Vec<ClusterAction>)
        ensures
            final(self)@ == spec_step(old(self)@, ev@).0,
            acts.deep_view() == spec_step(old(self)@, ev@).1,
    {
        match ev {
            ClusterEvent::PushServer { name, active } => self.push_server(name, active),
            ClusterEvent::PopServer { name } => self.pop_server(&name),
            ClusterEvent::UpdateActive { name, active } => self.update_active(&name, active),
            ClusterEvent::QueueServer { req } => self.queue_server(req),
            ClusterEvent::ServerPong { timer, name } => self.server_pong(timer, name),
            ClusterEvent::TimerCompleted { timer } => self.timer_completed(timer),
        }
    }

    /// Pull one deferred request back in, if any: shared tail of `PushServer`
    /// (out of `Starting`) and `ServerPong` (out of `RecvPong`).
    fn drain_one(&mut self, acts: &mut Vec<ClusterAction>)
        ensures
            (final(self)@, final(acts).deep_view()) == spec_drain_one(
                old(self)@,
                old(acts).deep_view(),
            ),
    {
        if self.queue_reqs.len() > 0 {
            let req = self.queue_reqs.remove(0);
            acts.push(ClusterAction::Requeue { req });
            proof {
                assert(self.queue_reqs@ =~= old(self)@.queue_reqs.drop_first());
                assert(acts.deep_view() =~= spec_drain_one(
                    old(self)@,
                    old(acts).deep_view(),
                ).1);
            }
        }
    }

    fn push_server(&mut self, name: String, active: bool) -> (acts: Vec<ClusterAction>)
        ensures
            (final(self)@, acts.deep_view()) == spec_push_server(old(self)@, name@, active),
    {
        let resolved_name = if matches!(self.state, QueueState::Starting { .. }) {
            Some(name.clone())
        } else {
            None
        };
        self.servers.push(MinigameServer { name, active });
        proof {
            assert(self.servers.deep_view() =~= old(self)@.servers.push(
                MinigameServerView { name: name@, active },
            ));
        }
        match self.state {
            QueueState::Starting { req } => {
                self.state = QueueState::Idle;
                let server = ServerName(resolved_name.unwrap());
                let mut acts: Vec<ClusterAction> = Vec::new();
                acts.push(ClusterAction::Resolve { req, server });
                proof {
                    assert(acts.deep_view() =~= seq![
                        ClusterActionView::Resolve { req, server: name@ },
                    ]);
                }
                self.drain_one(&mut acts);
                acts
            },
            _ => {
                let acts: Vec<ClusterAction> = Vec::new();
                proof {
                    assert(acts.deep_view() =~= Seq::<ClusterActionView>::empty());
                }
                acts
            },
        }
    }

    fn pop_server(&mut self, name: &String) -> (acts: Vec<ClusterAction>)
        ensures
            (final(self)@, acts.deep_view()) == spec_pop_server(old(self)@, name@),
    {
        let mut i: usize = 0;
        while i < self.servers.len()
            invariant
                *self == *old(self),
                i <= self.servers.len(),
                forall|j: int| 0 <= j < i ==> self.servers.deep_view()[j].name != name@,
            decreases self.servers.len() - i,
        {
            if self.servers[i].name == *name {
                proof {
                    lemma_first_server_index(old(self)@.servers, name@, i as int);
                }
                self.servers.remove(i);
                let acts: Vec<ClusterAction> = Vec::new();
                proof {
                    assert(self.servers.deep_view() =~= old(self)@.servers.remove(i as int));
                    assert(acts.deep_view() =~= Seq::<ClusterActionView>::empty());
                }
                return acts;
            }
            i += 1;
        }
        let acts: Vec<ClusterAction> = Vec::new();
        proof {
            assert(!has_server(old(self)@.servers, name@));
            assert(acts.deep_view() =~= Seq::<ClusterActionView>::empty());
        }
        acts
    }

    fn update_active(&mut self, name: &String, active: bool) -> (acts: Vec<ClusterAction>)
        ensures
            (final(self)@, acts.deep_view()) == spec_update_active(old(self)@, name@, active),
    {
        let mut i: usize = 0;
        while i < self.servers.len()
            invariant
                *self == *old(self),
                i <= self.servers.len(),
                forall|j: int| 0 <= j < i ==> self.servers.deep_view()[j].name != name@,
            decreases self.servers.len() - i,
        {
            if self.servers[i].name == *name {
                proof {
                    lemma_first_server_index(old(self)@.servers, name@, i as int);
                }
                self.servers[i].active = active;
                let acts: Vec<ClusterAction> = Vec::new();
                proof {
                    assert(self.servers.deep_view() =~= old(self)@.servers.update(
                        i as int,
                        MinigameServerView { name: old(self)@.servers[i as int].name, active },
                    ));
                    assert(acts.deep_view() =~= Seq::<ClusterActionView>::empty());
                }
                return acts;
            }
            i += 1;
        }
        let acts: Vec<ClusterAction> = Vec::new();
        proof {
            assert(!has_server(old(self)@.servers, name@));
            assert(acts.deep_view() =~= Seq::<ClusterActionView>::empty());
        }
        acts
    }

    fn queue_server(&mut self, req: u64) -> (acts: Vec<ClusterAction>)
        ensures
            (final(self)@, acts.deep_view()) == spec_queue_server(old(self)@, req),
    {
        if !matches!(self.state, QueueState::Idle) {
            self.queue_reqs.push(req);
            let acts: Vec<ClusterAction> = Vec::new();
            proof {
                assert(acts.deep_view() =~= Seq::<ClusterActionView>::empty());
            }
            return acts;
        }
        self.state = QueueState::RecvPong { req };
        let mut acts: Vec<ClusterAction> = Vec::new();
        let mut i: usize = 0;
        while i < self.servers.len()
            invariant
                *self == old(self).spec_with_state(QueueState::RecvPong { req }),
                i <= self.servers.len(),
                acts.deep_view() == ping_actions(
                    old(self)@.servers.take(i as int),
                    old(self)@.timer_now,
                ),
            decreases self.servers.len() - i,
        {
            if self.servers[i].active {
                acts.push(
                    ClusterAction::Ping { name: self.servers[i].name.clone(), timer: self.timer_now },
                );
            }
            i += 1;
            proof {
                assert(old(self)@.servers.take(i as int).drop_last() =~= old(self)@.servers.take(
                    i - 1,
                ));
                assert(acts.deep_view() =~= ping_actions(
                    old(self)@.servers.take(i as int),
                    old(self)@.timer_now,
                ));
            }
        }
        proof {
            assert(old(self)@.servers.take(self.servers@.len() as int) =~= old(self)@.servers);
        }
        acts.push(ClusterAction::StartTimer { timer: self.timer_now });
        acts
    }

    fn server_pong(&mut self, timer: i32, name: String) -> (acts: Vec<ClusterAction>)
        ensures
            (final(self)@, acts.deep_view()) == spec_server_pong(old(self)@, timer, name@),
    {
        if timer != self.timer_now {
            let acts: Vec<ClusterAction> = Vec::new();
            proof {
                assert(acts.deep_view() =~= Seq::<ClusterActionView>::empty());
            }
            return acts;
        }
        match self.state {
            QueueState::RecvPong { req } => {
                self.state = QueueState::Idle;
                self.timer_now = if self.timer_now == i32::MAX {
                    i32::MIN
                } else {
                    self.timer_now + 1
                };
                let mut acts: Vec<ClusterAction> = Vec::new();
                acts.push(ClusterAction::Resolve { req, server: ServerName(name) });
                proof {
                    assert(acts.deep_view() =~= seq![
                        ClusterActionView::Resolve { req, server: name@ },
                    ]);
                }
                self.drain_one(&mut acts);
                acts
            },
            _ => {
                let acts: Vec<ClusterAction> = Vec::new();
                proof {
                    assert(acts.deep_view() =~= Seq::<ClusterActionView>::empty());
                }
                acts
            },
        }
    }

    fn timer_completed(&mut self, timer: i32) -> (acts: Vec<ClusterAction>)
        ensures
            (final(self)@, acts.deep_view()) == spec_timer_completed(old(self)@, timer),
    {
        if timer != self.timer_now {
            let acts: Vec<ClusterAction> = Vec::new();
            proof {
                assert(acts.deep_view() =~= Seq::<ClusterActionView>::empty());
            }
            return acts;
        }
        match self.state {
            QueueState::RecvPong { req } => {
                self.state = QueueState::Starting { req };
                self.timer_now = if self.timer_now == i32::MAX {
                    i32::MIN
                } else {
                    self.timer_now + 1
                };
                let mut acts: Vec<ClusterAction> = Vec::new();
                acts.push(ClusterAction::SpawnNew);
                proof {
                    assert(acts.deep_view() =~= seq![ClusterActionView::SpawnNew]);
                }
                acts
            },
            _ => {
                let acts: Vec<ClusterAction> = Vec::new();
                proof {
                    assert(acts.deep_view() =~= Seq::<ClusterActionView>::empty());
                }
                acts
            },
        }
    }
}

/// Helper for loop invariants: this state with only the request slot changed.
impl ClusterState {
    pub open spec fn spec_with_state(&self, st: QueueState) -> ClusterState {
        ClusterState {
            kind: self.kind,
            servers: self.servers,
            state: st,
            queue_reqs: self.queue_reqs,
            timer_now: self.timer_now,
        }
    }
}

/// If `i` is the first position whose member is named `name`, then
/// `first_server_index` finds exactly `i`.
proof fn lemma_first_server_index(servers: Seq<MinigameServerView>, name: Seq<char>, i: int)
    requires
        0 <= i < servers.len(),
        servers[i].name == name,
        forall|j: int| 0 <= j < i ==> servers[j].name != name,
    ensures
        has_server(servers, name),
        first_server_index(servers, name) == i,
    decreases i,
{
    if i > 0 {
        lemma_first_server_index(servers.drop_first(), name, i - 1);
    }
}

// ---------------------------------------------------------------------------
// Laws of the cluster state machine.
// ---------------------------------------------------------------------------
/// True iff this event closes the current epoch: the cluster is waiting for
/// pongs and the event is a `ServerPong` or `TimerCompleted` of exactly the
/// current epoch.
pub open spec fn epoch_closing_event(pre: ClusterStateView, ev: ClusterEventView) -> bool {
    pre.state is RecvPong && match ev {
        ClusterEventView::ServerPong { timer, .. } => timer == pre.timer_now,
        ClusterEventView::TimerCompleted { timer } => timer == pre.timer_now,
        _ => false,
    }
}

/// `timer_now` advances (by a wrapping increment) on exactly the transitions
/// out of `RecvPong`; no other event touches it.
pub proof fn lemma_epoch_advances_exactly_out_of_recv_pong(
    pre: ClusterStateView,
    ev: ClusterEventView,
)
    ensures
        spec_step(pre, ev).0.timer_now == if epoch_closing_event(pre, ev) {
            wrap_incr(pre.timer_now)
        } else {
            pre.timer_now
        },
        epoch_closing_event(pre, ev) ==> spec_step(pre, ev).0.timer_now != pre.timer_now,
{
}

/// How many requests a queue state holds live: the `RecvPong` and `Starting`
/// slots are the same single slot, so never more than one request is being
/// actively worked on per cluster.
pub open spec fn live_requests(st: QueueState) -> nat {
    match st {
        QueueState::Idle => 0,
        QueueState::RecvPong { .. } => 1,
        QueueState::Starting { .. } => 1,
    }
}

/// No step ever produces a state with more than one live request; in
/// particular a cluster is never both receiving pongs and starting a server.
pub proof fn lemma_at_most_one_live_request(pre: ClusterStateView, ev: ClusterEventView)
    ensures
        live_requests(spec_step(pre, ev).0.state) <= 1,
        !(spec_step(pre, ev).0.state is RecvPong && spec_step(pre, ev).0.state is Starting),
{
}

/// A `ServerPong` or `TimerCompleted` whose epoch is not the current one is
/// dropped without any effect.
pub proof fn lemma_stale_messages_dropped(pre: ClusterStateView, timer: i32, name: Seq<char>)
    requires
        timer != pre.timer_now,
    ensures
        spec_step(pre, ClusterEventView::ServerPong { timer, name }).0 == pre,
        spec_step(pre, ClusterEventView::ServerPong { timer, name }).1 == Seq::<
            ClusterActionView,
        >::empty(),
        spec_step(pre, ClusterEventView::TimerCompleted { timer }).0 == pre,
        spec_step(pre, ClusterEventView::TimerCompleted { timer }).1 == Seq::<
            ClusterActionView,
        >::empty(),
{
}

/// The epoch counter wraps from `i32::MAX` to `i32::MIN` without confusing
/// epoch matching: after the wrap, a pong of the old epoch is stale and
/// dropped.
pub proof fn lemma_epoch_wrap(pre: ClusterStateView, name: Seq<char>, late: Seq<char>)
    requires
        pre.state is RecvPong,
        pre.timer_now == i32::MAX,
    ensures
        ({
            let (post, acts) = spec_step(
                pre,
                ClusterEventView::ServerPong { timer: i32::MAX, name },
            );
            &&& post.timer_now == i32::MIN
            &&& spec_step(post, ClusterEventView::ServerPong { timer: i32::MAX, name: late }).0
                == post
            &&& spec_step(
                post,
                ClusterEventView::ServerPong { timer: i32::MAX, name: late },
            ).1 == Seq::<ClusterActionView>::empty()
        }),
{
}

/// The number of `Resolve` actions in an action list.
pub open spec fn resolve_count(acts: Seq<ClusterActionView>) -> nat
    decreases acts.len(),
{
    if acts.len() == 0 {
        0
    } else {
        resolve_count(acts.drop_last()) + if acts.last() is Resolve {
            1nat
        } else {
            0nat
        }
    }
}

/// The tickets an action list hands back to the shell, either resolved or
/// re-injected.
pub open spec fn released_reqs(acts: Seq<ClusterActionView>) -> Multiset<u64>
    decreases acts.len(),
{
    if acts.len() == 0 {
        Multiset::empty()
    } else {
        released_reqs(acts.drop_last()).add(
            match acts.last() {
                ClusterActionView::Resolve { req, .. } => Multiset::singleton(req),
                ClusterActionView::Requeue { req } => Multiset::singleton(req),
                _ => Multiset::empty(),
            },
        )
    }
}

/// The tickets a cluster state holds: the live one (if any) and the deferred
/// queue.
pub open spec fn pending_reqs(s: ClusterStateView) -> Multiset<u64> {
    match s.state {
        QueueState::Idle => s.queue_reqs.to_multiset(),
        QueueState::RecvPong { req } => s.queue_reqs.to_multiset().insert(req),
        QueueState::Starting { req } => s.queue_reqs.to_multiset().insert(req),
    }
}

/// The ticket an event brings in: one per accepted `QueueServer`.
pub open spec fn enqueued_reqs(ev: ClusterEventView) -> Multiset<u64> {
    match ev {
        ClusterEventView::QueueServer { req } => Multiset::singleton(req),
        _ => Multiset::empty(),
    }
}

proof fn lemma_to_multiset_drop_first(s: Seq<u64>)
    requires
        s.len() > 0,
    ensures
        s.to_multiset() =~= s.drop_first().to_multiset().insert(s[0]),
{
    broadcast use vstd::seq_lib::group_to_multiset_ensures;

    assert(s.remove(0) =~= s.drop_first());
    assert(s.contains(s[0]));
    assert(s.remove(0).to_multiset() =~= s.to_multiset().remove(s[0]));
    assert forall|x: u64| s.to_multiset().count(x) == s.drop_first().to_multiset().insert(
        s[0],
    ).count(x) by {
        broadcast use vstd::multiset::group_multiset_axioms;

        if x == s[0] {
            assert(s.to_multiset().count(x) > 0);
        }
    }
}

proof fn lemma_ping_actions_only_pings(servers: Seq<MinigameServerView>, timer: i32)
    ensures
        released_reqs(ping_actions(servers, timer)) =~= Multiset::empty(),
        resolve_count(ping_actions(servers, timer)) == 0,
    decreases servers.len(),
{
    broadcast use vstd::multiset::group_multiset_axioms;

    if servers.len() > 0 {
        lemma_ping_actions_only_pings(servers.drop_last(), timer);
        if servers.last().active {
            let acts = ping_actions(servers, timer);
            assert(acts.drop_last() =~= ping_actions(servers.drop_last(), timer));
        }
    }
}

proof fn lemma_actions_singleton(a: ClusterActionView)
    ensures
        released_reqs(seq![a]) =~= match a {
            ClusterActionView::Resolve { req, .. } => Multiset::singleton(req),
            ClusterActionView::Requeue { req } => Multiset::singleton(req),
            _ => Multiset::empty(),
        },
        resolve_count(seq![a]) == if a is Resolve {
            1nat
        } else {
            0nat
        },
{
    broadcast use vstd::multiset::group_multiset_axioms;

    reveal_with_fuel(released_reqs, 2);
    reveal_with_fuel(resolve_count, 2);
    assert(seq![a].drop_last() =~= Seq::<ClusterActionView>::empty());
}

proof fn lemma_actions_push(acts: Seq<ClusterActionView>, a: ClusterActionView)
    ensures
        released_reqs(acts.push(a)) =~= released_reqs(acts).add(
            match a {
                ClusterActionView::Resolve { req, .. } => Multiset::singleton(req),
                ClusterActionView::Requeue { req } => Multiset::singleton(req),
                _ => Multiset::empty(),
            },
        ),
        resolve_count(acts.push(a)) == resolve_count(acts) + if a is Resolve {
            1nat
        } else {
            0nat
        },
{
    assert(acts.push(a).drop_last() =~= acts);
}

/// Every step resolves at most one request: a queue request is never answered
/// twice in one transition.
pub proof fn lemma_at_most_one_resolve(pre: ClusterStateView, ev: ClusterEventView)
    ensures
        resolve_count(spec_step(pre, ev).1) <= 1,
{
    broadcast use vstd::multiset::group_multiset_axioms;

    lemma_ticket_flow(pre, ev);
}

/// Ticket conservation: across any step, the tickets held afterwards plus the
/// tickets handed back (resolved or re-injected) are exactly the tickets held
/// before plus the ticket brought in. No queue request is ever lost or
/// duplicated by a cluster transition.
pub proof fn lemma_ticket_flow(pre: ClusterStateView, ev: ClusterEventView)
    ensures
        pending_reqs(spec_step(pre, ev).0).add(released_reqs(spec_step(pre, ev).1))
            =~= pending_reqs(pre).add(enqueued_reqs(ev)),
        resolve_count(spec_step(pre, ev).1) <= 1,
{
    broadcast use vstd::multiset::group_multiset_axioms;
    broadcast use vstd::seq_lib::group_to_multiset_ensures;

    let (post, acts) = spec_step(pre, ev);
    match ev {
        ClusterEventView::PushServer { name, active } => {
            if pre.state is Starting {
                let req = pre.state->Starting_req;
                let acts0 = seq![ClusterActionView::Resolve { req, server: name }];
                lemma_actions_singleton(ClusterActionView::Resolve { req, server: name });
                if pre.queue_reqs.len() > 0 {
                    lemma_actions_push(
                        acts0,
                        ClusterActionView::Requeue { req: pre.queue_reqs[0] },
                    );
                    lemma_to_multiset_drop_first(pre.queue_reqs);
                }
            }
        },
        ClusterEventView::PopServer { .. } => {},
        ClusterEventView::UpdateActive { .. } => {},
        ClusterEventView::QueueServer { req } => {
            if pre.state is Idle {
                lemma_ping_actions_only_pings(pre.servers, pre.timer_now);
                lemma_actions_push(
                    ping_actions(pre.servers, pre.timer_now),
                    ClusterActionView::StartTimer { timer: pre.timer_now },
                );
            }
        },
        ClusterEventView::ServerPong { timer, name } => {
            if timer == pre.timer_now && pre.state is RecvPong {
                let req = pre.state->RecvPong_req;
                let acts0 = seq![ClusterActionView::Resolve { req, server: name }];
                lemma_actions_singleton(ClusterActionView::Resolve { req, server: name });
                if pre.queue_reqs.len() > 0 {
                    lemma_actions_push(
                        acts0,
                        ClusterActionView::Requeue { req: pre.queue_reqs[0] },
                    );
                    lemma_to_multiset_drop_first(pre.queue_reqs);
                }
            }
        },
        ClusterEventView::TimerCompleted { timer } => {
            if timer == pre.timer_now && pre.state is RecvPong {
                lemma_actions_singleton(ClusterActionView::SpawnNew);
            }
        },
    }
}

/// A `ServerPong` and a `TimerCompleted` for the same (current) epoch, in
/// either order, yield exactly one resolution between them: whichever comes
/// second is stale. When the timer wins, the request is kept in `Starting`
/// and no pong of the closed epoch can resolve it.
pub proof fn lemma_simultaneous_pong_and_timer(pre: ClusterStateView, name: Seq<char>)
    requires
        pre.state is RecvPong,
    ensures
        ({
            let t = pre.timer_now;
            let (s1, a1) = spec_step(pre, ClusterEventView::ServerPong { timer: t, name });
            let (s2, a2) = spec_step(s1, ClusterEventView::TimerCompleted { timer: t });
            &&& resolve_count(a1) == 1
            &&& resolve_count(a2) == 0
            &&& s2 == s1
        }),
        ({
            let t = pre.timer_now;
            let (s1, a1) = spec_step(pre, ClusterEventView::TimerCompleted { timer: t });
            let (s2, a2) = spec_step(s1, ClusterEventView::ServerPong { timer: t, name });
            &&& resolve_count(a1) == 0
            &&& resolve_count(a2) == 0
            &&& s2 == s1
            &&& s1.state == (QueueState::Starting { req: pre.state->RecvPong_req })
        }),
{
    let t = pre.timer_now;
    let req = pre.state->RecvPong_req;
    let (s1, a1) = spec_step(pre, ClusterEventView::ServerPong { timer: t, name });
    assert(s1.timer_now == wrap_incr(t) && wrap_incr(t) != t);
    let acts0 = seq![ClusterActionView::Resolve { req, server: name }];
    lemma_actions_singleton(ClusterActionView::Resolve { req, server: name });
    if pre.queue_reqs.len() > 0 {
        lemma_actions_push(acts0, ClusterActionView::Requeue { req: pre.queue_reqs[0] });
    }
    let (s1b, a1b) = spec_step(pre, ClusterEventView::TimerCompleted { timer: t });
    assert(s1b.timer_now == wrap_incr(t) && wrap_incr(t) != t);
    lemma_actions_singleton(ClusterActionView::SpawnNew);
    assert(resolve_count(Seq::<ClusterActionView>::empty()) == 0);
}

} // verus!
