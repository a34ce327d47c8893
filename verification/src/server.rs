//! The acceptor: it binds the listening endpoint once, announces that it is
//! ready, and gives every accepted connection a handshake of its own.
//!
//! [`WebSocketServer`] holds the configuration and the phase of the service.
//! Its owner binds, accepts and spawns; the server says when.

use vstd::prelude::*;
use crate::connection::{
    frames_sent, hand_offs, lemma_effects_of_first_action, lemma_run_unfolds,
    lemma_secret_is_handed_off, lemma_wrong_token_is_rejected, ActionView, Connection,
    ConnectionEvent, ConnectionState, ConnectionView, REJECTION_NOTICE,
};
use crate::envelope::Frame;

verus! {

/// The phase of the service. `Stopped` is final: a failed bind is not
/// retried, and a failed accept ends the service.
#[derive(Clone, Copy, Debug, PartialEq, Eq, Structural)]
pub enum ServerPhase {
    /// Configured, not started.
    Idle,
    /// The listening endpoint is being bound.
    Binding,
    /// Bound and accepting connections.
    Serving,
    /// Not serving, and never serving again.
    Stopped,
}

/// What the owner of the server reports to it.
#[derive(Clone, Copy, Debug, PartialEq, Eq, Structural)]
pub enum ServerEvent {
    /// The service is asked to run.
    Start,
    /// The listening endpoint was bound.
    Bound,
    /// The listening endpoint could not be bound.
    BindFailed,
    /// A connection was accepted.
    Accepted,
    /// Accepting failed.
    AcceptFailed,
}

/// Why the service stopped.
#[derive(Clone, Copy, Debug, PartialEq, Eq, Structural)]
pub enum StopReason {
    /// The listening endpoint could not be bound.
    BindFailure,
    /// Accepting a connection failed.
    AcceptFailure,
}

/// What the owner of the server has to do next.
#[derive(Debug, PartialEq, Eq)]
pub enum ServerAction {
    /// Bind the listening endpoint at this address and report the outcome.
    Bind { addr: String },
    /// Fire the readiness signal, then accept connections.
    SignalReady,
    /// Run this handshake for the accepted connection as a unit of work of
    /// its own, and go on accepting without waiting for it.
    Dispatch(Connection),
    /// Stop serving.
    Stop(StopReason),
    /// The event does not concern the server in its present phase.
    Ignore,
}

/// A [`ServerAction`] as a mathematical value.
pub enum ServerActionView {
    Bind { addr: Seq<char> },
    SignalReady,
    Dispatch(ConnectionView),
    Stop(StopReason),
    Ignore,
}

impl View for ServerAction {
    type V = ServerActionView;

    open spec fn view(&self) -> ServerActionView {
        match self {
            ServerAction::Bind { addr } => ServerActionView::Bind { addr: addr@ },
            ServerAction::SignalReady => ServerActionView::SignalReady,
            ServerAction::Dispatch(connection) => ServerActionView::Dispatch(connection@),
            ServerAction::Stop(reason) => ServerActionView::Stop(*reason),
            ServerAction::Ignore => ServerActionView::Ignore,
        }
    }
}

/// A [`WebSocketServer`] as a mathematical value: its configuration and
/// its phase.
pub struct ServerView {
    pub addr: Seq<char>,
    pub token: Seq<char>,
    pub phase: ServerPhase,
}

impl ServerView {
    /// The handshake that an accepted connection starts with: it carries the
    /// server's secret and awaits its upgrade.
    pub open spec fn fresh_connection(self) -> ConnectionView {
        ConnectionView { secret: self.token, state: ConnectionState::AwaitingUpgrade }
    }

    /// The server after an event, and the action that the event calls for.
    pub open spec fn step(self, event: ServerEvent) -> (ServerView, ServerActionView) {
        match (self.phase, event) {
            (ServerPhase::Idle, ServerEvent::Start) => (
                ServerView { phase: ServerPhase::Binding, ..self },
                ServerActionView::Bind { addr: self.addr },
            ),
            (ServerPhase::Binding, ServerEvent::Bound) => (
                ServerView { phase: ServerPhase::Serving, ..self },
                ServerActionView::SignalReady,
            ),
            (ServerPhase::Binding, ServerEvent::BindFailed) => (
                ServerView { phase: ServerPhase::Stopped, ..self },
                ServerActionView::Stop(StopReason::BindFailure),
            ),
            (ServerPhase::Serving, ServerEvent::Accepted) => (
                self,
                ServerActionView::Dispatch(self.fresh_connection()),
            ),
            (ServerPhase::Serving, ServerEvent::AcceptFailed) => (
                ServerView { phase: ServerPhase::Stopped, ..self },
                ServerActionView::Stop(StopReason::AcceptFailure),
            ),
            _ => (self, ServerActionView::Ignore),
        }
    }
}

/// The acceptor of the service.
#[derive(Debug, PartialEq, Eq)]
pub struct WebSocketServer {
    addr: String,
    token: String,
    phase: ServerPhase,
}

impl View for WebSocketServer {
    type V = ServerView;

    closed spec fn view(&self) -> ServerView {
        ServerView { addr: self.addr@, token: self.token@, phase: self.phase }
    }
}

impl WebSocketServer {
    /// A server that will listen at `addr` and admit the peers that present
    /// `token`.
    pub fn new(addr: String, token: String) -> (server: WebSocketServer)
        ensures
            server@ == (ServerView { addr: addr@, token: token@, phase: ServerPhase::Idle }),
    {
        WebSocketServer { addr, token, phase: ServerPhase::Idle }
    }

    /// The address of the listening endpoint.
    pub fn addr(&self) -> (addr: &str)
        ensures
            addr@ == self@.addr,
    {
        self.addr.as_str()
    }

    /// The present phase.
    pub fn phase(&self) -> (phase: ServerPhase)
        ensures
            phase == self@.phase,
    {
        self.phase
    }

    /// Takes an event and returns what to do about it. The configuration
    /// never changes; the readiness signal is called for on the step from
    /// `Binding` to `Serving` and on no other.
    pub fn on_event(&mut self, event: ServerEvent) -> (action: ServerAction)
        ensures
            (final(self)@, action@) == old(self)@.step(event),
            final(self)@.addr == old(self)@.addr,
            final(self)@.token == old(self)@.token,
            action@ is SignalReady <==> old(self)@.phase is Binding && event is Bound,
            action@ is SignalReady ==> final(self)@.phase is Serving,
            action@ is Dispatch <==> old(self)@.phase is Serving && event is Accepted,
            action@ matches ServerActionView::Dispatch(connection) ==> connection
                == old(self)@.fresh_connection() && final(self)@ == old(self)@,
    {
        match self.phase {
            ServerPhase::Idle => match event {
                ServerEvent::Start => {
                    self.phase = ServerPhase::Binding;
                    ServerAction::Bind { addr: self.addr.clone() }
                },
                _ => ServerAction::Ignore,
            },
            ServerPhase::Binding => match event {
                ServerEvent::Bound => {
                    self.phase = ServerPhase::Serving;
                    ServerAction::SignalReady
                },
                ServerEvent::BindFailed => {
                    self.phase = ServerPhase::Stopped;
                    ServerAction::Stop(StopReason::BindFailure)
                },
                _ => ServerAction::Ignore,
            },
            ServerPhase::Serving => match event {
                ServerEvent::Accepted => ServerAction::Dispatch(
                    Connection::new(self.token.clone()),
                ),
                ServerEvent::AcceptFailed => {
                    self.phase = ServerPhase::Stopped;
                    ServerAction::Stop(StopReason::AcceptFailure)
                },
                _ => ServerAction::Ignore,
            },
            ServerPhase::Stopped => ServerAction::Ignore,
        }
    }
}


impl ServerView {
    /// The server after it has handled `events` in order.
    pub open spec fn run(self, events: Seq<ServerEvent>) -> ServerView
        decreases events.len(),
    {
        if events.len() == 0 {
            self
        } else {
            self.step(events[0]).0.run(events.drop_first())
        }
    }

    /// The actions that handling `events` in order calls for, one for each
    /// event.
    pub open spec fn actions(self, events: Seq<ServerEvent>) -> Seq<ServerActionView>
        decreases events.len(),
    {
        if events.len() == 0 {
            Seq::empty()
        } else {
            seq![self.step(events[0]).1] + self.step(events[0]).0.actions(events.drop_first())
        }
    }
}

/// How many times `actions` fire the readiness signal.
pub open spec fn ready_signals(actions: Seq<ServerActionView>) -> nat
    decreases actions.len(),
{
    if actions.len() == 0 {
        0
    } else if actions[0] is SignalReady {
        1 + ready_signals(actions.drop_first())
    } else {
        ready_signals(actions.drop_first())
    }
}

/// How many connections `actions` dispatch.
pub open spec fn dispatches(actions: Seq<ServerActionView>) -> nat
    decreases actions.len(),
{
    if actions.len() == 0 {
        0
    } else if actions[0] is Dispatch {
        1 + dispatches(actions.drop_first())
    } else {
        dispatches(actions.drop_first())
    }
}

/// Whether the listening endpoint gets bound while a server that is in
/// `phase` handles `events`: some `Bound` arrives while it is binding.
pub open spec fn binds(phase: ServerPhase, events: Seq<ServerEvent>) -> bool
    decreases events.len(),
{
    if events.len() == 0 {
        false
    } else {
        match (phase, events[0]) {
            (ServerPhase::Idle, ServerEvent::Start) => binds(
                ServerPhase::Binding,
                events.drop_first(),
            ),
            (ServerPhase::Idle, _) => binds(ServerPhase::Idle, events.drop_first()),
            (ServerPhase::Binding, ServerEvent::Bound) => true,
            (ServerPhase::Binding, ServerEvent::BindFailed) => false,
            (ServerPhase::Binding, _) => binds(ServerPhase::Binding, events.drop_first()),
            _ => false,
        }
    }
}

/// The signals fired and the connections dispatched by a first action
/// followed by further ones are those of the first plus those of the rest.
pub proof fn lemma_counts_of_first_action(first: ServerActionView, rest: Seq<ServerActionView>)
    ensures
        ready_signals(seq![first] + rest) == ready_signals(rest) + if first is SignalReady {
            1nat
        } else {
            0nat
        },
        dispatches(seq![first] + rest) == dispatches(rest) + if first is Dispatch {
            1nat
        } else {
            0nat
        },
{
    assert((seq![first] + rest).drop_first() =~= rest);
}

/// Handling a first event and then further ones: the server is the one
/// reached from the first step, and the actions are the first step's action
/// followed by those of the rest.
pub proof fn lemma_server_run_unfolds(server: ServerView, first: ServerEvent, rest: Seq<ServerEvent>)
    ensures
        server.run(seq![first] + rest) == server.step(first).0.run(rest),
        server.actions(seq![first] + rest) == seq![server.step(first).1] + server.step(
            first,
        ).0.actions(rest),
{
    assert((seq![first] + rest).drop_first() =~= rest);
}

/// Whatever events a server handles, its address and its secret stay as
/// they were configured, and each event gets one action.
pub proof fn lemma_configuration_is_kept(server: ServerView, events: Seq<ServerEvent>)
    ensures
        server.run(events).addr == server.addr,
        server.run(events).token == server.token,
        server.actions(events).len() == events.len(),
    decreases events.len(),
{
    if events.len() > 0 {
        lemma_configuration_is_kept(server.step(events[0]).0, events.drop_first());
    }
}

/// A stopped server stays stopped: it never fires the readiness signal and
/// never dispatches a connection.
pub proof fn lemma_stopped_is_final(server: ServerView, events: Seq<ServerEvent>)
    requires
        server.phase is Stopped,
    ensures
        server.run(events) == server,
        ready_signals(server.actions(events)) == 0,
        dispatches(server.actions(events)) == 0,
    decreases events.len(),
{
    if events.len() > 0 {
        let rest = events.drop_first();
        lemma_stopped_is_final(server, rest);
        lemma_counts_of_first_action(ServerActionView::Ignore, server.actions(rest));
    }
}

/// A server that is serving has fired its signal already: it never fires it
/// again.
pub proof fn lemma_serving_never_signals(server: ServerView, events: Seq<ServerEvent>)
    requires
        server.phase is Serving,
    ensures
        ready_signals(server.actions(events)) == 0,
        server.run(events).phase is Serving || server.run(events).phase is Stopped,
    decreases events.len(),
{
    if events.len() > 0 {
        let (next, action) = server.step(events[0]);
        let rest = events.drop_first();
        lemma_counts_of_first_action(action, next.actions(rest));
        if next.phase is Stopped {
            lemma_stopped_is_final(next, rest);
        } else {
            lemma_serving_never_signals(next, rest);
        }
    }
}

/// The readiness signal fires exactly once if the listening endpoint gets
/// bound, and never otherwise: not before the bind, not when the bind
/// fails, and not a second time. No connection is dispatched unless the
/// endpoint was bound.
pub proof fn lemma_ready_signal_fires_once(server: ServerView, events: Seq<ServerEvent>)
    requires
        server.phase is Idle || server.phase is Binding,
    ensures
        ready_signals(server.actions(events)) == if binds(server.phase, events) {
            1nat
        } else {
            0nat
        },
        !binds(server.phase, events) ==> dispatches(server.actions(events)) == 0,
        !binds(server.phase, events) ==> !(server.run(events).phase is Serving),
    decreases events.len(),
{
    if events.len() > 0 {
        let (next, action) = server.step(events[0]);
        let rest = events.drop_first();
        lemma_counts_of_first_action(action, next.actions(rest));
        if next.phase is Stopped {
            lemma_stopped_is_final(next, rest);
        } else if next.phase is Serving {
            lemma_serving_never_signals(next, rest);
        } else {
            lemma_ready_signal_fires_once(next, rest);
        }
    }
}

/// However a server is driven, the readiness signal fires at most once.
pub proof fn lemma_ready_signal_at_most_once(server: ServerView, events: Seq<ServerEvent>)
    ensures
        ready_signals(server.actions(events)) <= 1,
{
    if server.phase is Stopped {
        lemma_stopped_is_final(server, events);
    } else if server.phase is Serving {
        lemma_serving_never_signals(server, events);
    } else {
        lemma_ready_signal_fires_once(server, events);
    }
}

/// A new server that is started and whose endpoint is bound fires the
/// readiness signal as its very next action, and exactly once in all,
/// whatever follows.
pub proof fn lemma_bound_server_signals_ready(server: ServerView, later: Seq<ServerEvent>)
    requires
        server.phase is Idle,
    ensures
        server.actions(seq![ServerEvent::Start, ServerEvent::Bound] + later)[0] == (
            ServerActionView::Bind { addr: server.addr }),
        server.actions(seq![ServerEvent::Start, ServerEvent::Bound] + later)[1] is SignalReady,
        ready_signals(server.actions(seq![ServerEvent::Start, ServerEvent::Bound] + later)) == 1,
{
    let events = seq![ServerEvent::Start, ServerEvent::Bound] + later;
    assert(events =~= seq![ServerEvent::Start] + (seq![ServerEvent::Bound] + later));
    let binding = server.step(ServerEvent::Start).0;
    let serving = binding.step(ServerEvent::Bound).0;
    lemma_server_run_unfolds(server, ServerEvent::Start, seq![ServerEvent::Bound] + later);
    lemma_server_run_unfolds(binding, ServerEvent::Bound, later);
    lemma_serving_never_signals(serving, later);
    lemma_counts_of_first_action(ServerActionView::SignalReady, serving.actions(later));
    lemma_counts_of_first_action(
        ServerActionView::Bind { addr: server.addr },
        binding.actions(seq![ServerEvent::Bound] + later),
    );
}

/// A new server whose bind fails never fires the readiness signal and
/// never serves: it is stopped, and no connection is ever dispatched.
pub proof fn lemma_failed_bind_never_signals(server: ServerView, later: Seq<ServerEvent>)
    requires
        server.phase is Idle,
    ensures
        server.run(seq![ServerEvent::Start, ServerEvent::BindFailed] + later).phase is Stopped,
        server.actions(seq![ServerEvent::Start, ServerEvent::BindFailed] + later)[1]
            == ServerActionView::Stop(StopReason::BindFailure),
        ready_signals(server.actions(seq![ServerEvent::Start, ServerEvent::BindFailed] + later))
            == 0,
        dispatches(server.actions(seq![ServerEvent::Start, ServerEvent::BindFailed] + later)) == 0,
{
    let events = seq![ServerEvent::Start, ServerEvent::BindFailed] + later;
    assert(events =~= seq![ServerEvent::Start] + (seq![ServerEvent::BindFailed] + later));
    let binding = server.step(ServerEvent::Start).0;
    let stopped = binding.step(ServerEvent::BindFailed).0;
    lemma_server_run_unfolds(server, ServerEvent::Start, seq![ServerEvent::BindFailed] + later);
    lemma_server_run_unfolds(binding, ServerEvent::BindFailed, later);
    lemma_stopped_is_final(stopped, later);
    lemma_counts_of_first_action(
        ServerActionView::Stop(StopReason::BindFailure),
        stopped.actions(later),
    );
    lemma_counts_of_first_action(
        ServerActionView::Bind { addr: server.addr },
        binding.actions(seq![ServerEvent::BindFailed] + later),
    );
}

/// While every accept succeeds the server keeps serving, and each accepted
/// connection is dispatched with a handshake of its own that carries the
/// server's secret.
pub proof fn lemma_every_accept_is_dispatched(server: ServerView, events: Seq<ServerEvent>)
    requires
        server.phase is Serving,
        forall|i: int| 0 <= i < events.len() ==> events[i] is Accepted,
    ensures
        server.run(events) == server,
        dispatches(server.actions(events)) == events.len(),
        forall|i: int|
            0 <= i < events.len() ==> #[trigger] server.actions(events)[i]
                == ServerActionView::Dispatch(server.fresh_connection()),
    decreases events.len(),
{
    if events.len() > 0 {
        let rest = events.drop_first();
        let first = ServerActionView::Dispatch(server.fresh_connection());
        lemma_every_accept_is_dispatched(server, rest);
        lemma_configuration_is_kept(server, rest);
        lemma_counts_of_first_action(first, server.actions(rest));
        assert(server.actions(events) == seq![first] + server.actions(rest));
        assert forall|i: int| 0 <= i < events.len() implies #[trigger] server.actions(events)[i]
            == first by {
            if i > 0 {
                assert(server.actions(events)[i] == server.actions(rest)[i - 1]);
            }
        }
    }
}

/// A connection that a serving server dispatches is judged by the
/// configured secret. Once it is upgraded, a first frame that presents the
/// server's token gets it handed off with nothing sent to the peer; a first
/// frame that presents another token gets the peer the rejection notice and
/// no hand-off.
pub proof fn lemma_dispatched_connection_is_judged_by_configured_secret(
    server: ServerView,
    frame: Frame,
    later: Seq<ConnectionEvent>,
)
    requires
        server.phase is Serving,
        frame.presented_token() is Some,
    ensures
        server.step(ServerEvent::Accepted).1 == ServerActionView::Dispatch(
            server.fresh_connection(),
        ),
        ({
            let events = seq![
                ConnectionEvent::UpgradeCompleted,
                ConnectionEvent::FrameReceived(frame),
            ] + later;
            let actions = server.fresh_connection().actions(events);
            let reached = server.fresh_connection().run(events).state;
            if frame.presented_token() == Some(server.token) {
                &&& reached is Authenticated
                &&& hand_offs(actions) == 1
                &&& frames_sent(actions) == Seq::<Seq<char>>::empty()
            } else {
                &&& reached is Rejected
                &&& hand_offs(actions) == 0
                &&& frames_sent(actions) == seq![REJECTION_NOTICE@]
            }
        }),
{
    let fresh = server.fresh_connection();
    let upgraded = fresh.step(ConnectionEvent::UpgradeCompleted).0;
    let first_frame = seq![ConnectionEvent::FrameReceived(frame)] + later;
    let events = seq![ConnectionEvent::UpgradeCompleted, ConnectionEvent::FrameReceived(frame)]
        + later;
    assert(events =~= seq![ConnectionEvent::UpgradeCompleted] + first_frame);
    lemma_run_unfolds(fresh, ConnectionEvent::UpgradeCompleted, first_frame);
    lemma_effects_of_first_action(ActionView::AwaitFirstFrame, upgraded.actions(first_frame));
    if frame.presented_token() == Some(server.token) {
        lemma_secret_is_handed_off(upgraded, frame, later);
    } else {
        lemma_wrong_token_is_rejected(upgraded, frame, later);
    }
}

} // verus!
