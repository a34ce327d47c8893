//! The life of one accepted connection: protocol upgrade, the first frame,
//! and the verdict on the token that it presents.
//!
//! A [`Connection`] never touches a socket. Its owner reports each thing that
//! happened as a [`ConnectionEvent`] and carries out the [`ConnectionAction`]
//! that comes back. A connection sets no time limit of its own: it waits for
//! its first frame until one is reported, or the end of the stream.

use vstd::prelude::*;
use crate::envelope::{presented, token_matches, AuthEnvelope, Frame};

verus! {

/// The text of the one frame that a peer with a wrong token receives.
pub const REJECTION_NOTICE: &'static str = "Неверный токен";

/// Where a connection stands. It only ever moves forward: from the upgrade to
/// the first frame, and from there to one of the three final states.
#[derive(Clone, Copy, Debug, PartialEq, Eq, Structural)]
pub enum ConnectionState {
    /// Accepted; the protocol upgrade has not finished.
    AwaitingUpgrade,
    /// Upgraded; nothing has been received yet and nothing has been sent.
    AwaitingFirstFrame,
    /// The peer presented the secret. Final.
    Authenticated,
    /// The first frame carried no envelope, or a wrong token. Final.
    Rejected,
    /// The connection ended before a first frame arrived. Final.
    Closed,
}

impl ConnectionState {
    /// No event moves a connection out of a final state.
    pub open spec fn is_final(self) -> bool {
        self is Authenticated || self is Rejected || self is Closed
    }

    /// How far along a connection is: 0 before the upgrade, 1 while the first
    /// frame is awaited, 2 in a final state.
    pub open spec fn progress(self) -> nat {
        match self {
            ConnectionState::AwaitingUpgrade => 0,
            ConnectionState::AwaitingFirstFrame => 1,
            _ => 2,
        }
    }
}

/// What the owner of a connection reports to it.
#[derive(Debug, PartialEq, Eq)]
pub enum ConnectionEvent {
    /// The protocol upgrade succeeded.
    UpgradeCompleted,
    /// The peer did not complete the protocol upgrade.
    UpgradeFailed,
    /// A frame arrived.
    FrameReceived(Frame),
    /// The inbound stream ended or failed without yielding a frame.
    StreamEnded,
}

/// Why a connection is closed without a word to the peer.
#[derive(Clone, Copy, Debug, PartialEq, Eq, Structural)]
pub enum CloseReason {
    /// The protocol upgrade failed.
    UpgradeFailure,
    /// The first frame was not a text frame holding an envelope.
    EnvelopeDecodeFailure,
    /// The peer went away before sending a frame.
    EarlyClose,
}

/// What the owner of a connection has to do next.
#[derive(Debug, PartialEq, Eq)]
pub enum ConnectionAction {
    /// Read one frame from the peer and report it.
    AwaitFirstFrame,
    /// Hand the connection to the session that relays its traffic. Nothing is
    /// sent to the peer.
    HandOff,
    /// Send the rejection notice as a single text frame, then close. The
    /// token that the peer tried is kept for the operator's log.
    RejectAndClose { attempted: String },
    /// Close without sending anything.
    CloseSilently(CloseReason),
    /// The event does not concern the connection in its present state.
    Ignore,
}

/// A [`ConnectionAction`] as a mathematical value.
pub enum ActionView {
    AwaitFirstFrame,
    HandOff,
    RejectAndClose { attempted: Seq<char> },
    CloseSilently(CloseReason),
    Ignore,
}

impl View for ConnectionAction {
    type V = ActionView;

    open spec fn view(&self) -> ActionView {
        match self {
            ConnectionAction::AwaitFirstFrame => ActionView::AwaitFirstFrame,
            ConnectionAction::HandOff => ActionView::HandOff,
            ConnectionAction::RejectAndClose { attempted } => ActionView::RejectAndClose {
                attempted: attempted@,
            },
            ConnectionAction::CloseSilently(reason) => ActionView::CloseSilently(*reason),
            ConnectionAction::Ignore => ActionView::Ignore,
        }
    }
}

impl ActionView {
    /// The frames that carrying out this action sends to the peer, in order.
    pub open spec fn frames_to_peer(self) -> Seq<Seq<char>> {
        match self {
            ActionView::RejectAndClose { .. } => seq![REJECTION_NOTICE@],
            _ => Seq::empty(),
        }
    }

    /// Whether this action passes the connection on for its traffic to be
    /// forwarded.
    pub open spec fn hands_off(self) -> bool {
        self is HandOff
    }

    /// Whether this action ends the connection.
    pub open spec fn closes(self) -> bool {
        self is RejectAndClose || self is CloseSilently
    }
}

impl ConnectionAction {
    /// The text frame to send to the peer before anything else is done, if
    /// the action sends one.
    pub fn reply(&self) -> (frame: Option<&'static str>)
        ensures
            frame is Some <==> self@ is RejectAndClose,
            frame matches Some(text) ==> text@ == REJECTION_NOTICE@,
            self@.frames_to_peer() == match frame {
                Some(text) => seq![text@],
                None => Seq::<Seq<char>>::empty(),
            },
    {
        match self {
            ConnectionAction::RejectAndClose { .. } => Some(REJECTION_NOTICE),
            _ => None,
        }
    }
}

/// A [`Connection`] as a mathematical value: the secret it was given and
/// its state.
pub struct ConnectionView {
    pub secret: Seq<char>,
    pub state: ConnectionState,
}

impl ConnectionView {
    /// The verdict on a first frame, given the token that it presents:
    /// the secret itself authenticates, any other token is rejected with the
    /// notice, and a frame without a token is rejected in silence. Outside
    /// `AwaitingFirstFrame` there is nothing to decide.
    pub open spec fn judge(self, presented: Option<Seq<char>>) -> (ConnectionView, ActionView) {
        if self.state is AwaitingFirstFrame {
            match presented {
                Some(token) => if token == self.secret {
                    (
                        ConnectionView { state: ConnectionState::Authenticated, ..self },
                        ActionView::HandOff,
                    )
                } else {
                    (
                        ConnectionView { state: ConnectionState::Rejected, ..self },
                        ActionView::RejectAndClose { attempted: token },
                    )
                },
                None => (
                    ConnectionView { state: ConnectionState::Rejected, ..self },
                    ActionView::CloseSilently(CloseReason::EnvelopeDecodeFailure),
                ),
            }
        } else {
            (self, ActionView::Ignore)
        }
    }

    /// The connection after an event, and the action that the event calls
    /// for.
    pub open spec fn step(self, event: ConnectionEvent) -> (ConnectionView, ActionView) {
        match (self.state, event) {
            (ConnectionState::AwaitingUpgrade, ConnectionEvent::UpgradeCompleted) => (
                ConnectionView { state: ConnectionState::AwaitingFirstFrame, ..self },
                ActionView::AwaitFirstFrame,
            ),
            (ConnectionState::AwaitingUpgrade, ConnectionEvent::UpgradeFailed) => (
                ConnectionView { state: ConnectionState::Closed, ..self },
                ActionView::CloseSilently(CloseReason::UpgradeFailure),
            ),
            (ConnectionState::AwaitingFirstFrame, ConnectionEvent::FrameReceived(frame)) => {
                self.judge(frame.presented_token())
            },
            (ConnectionState::AwaitingFirstFrame, ConnectionEvent::StreamEnded) => (
                ConnectionView { state: ConnectionState::Closed, ..self },
                ActionView::CloseSilently(CloseReason::EarlyClose),
            ),
            _ => (self, ActionView::Ignore),
        }
    }
}

/// The handshake of one connection.
#[derive(Debug, PartialEq, Eq)]
pub struct Connection {
    secret: String,
    state: ConnectionState,
}

impl View for Connection {
    type V = ConnectionView;

    closed spec fn view(&self) -> ConnectionView {
        ConnectionView { secret: self.secret@, state: self.state }
    }
}

impl Connection {
    /// A connection that was just accepted. It keeps its own copy of the
    /// secret, which nothing changes afterwards.
    pub fn new(secret: String) -> (connection: Connection)
        ensures
            connection@ == (ConnectionView {
                secret: secret@,
                state: ConnectionState::AwaitingUpgrade,
            }),
    {
        Connection { secret, state: ConnectionState::AwaitingUpgrade }
    }

    /// The present state.
    pub fn state(&self) -> (state: ConnectionState)
        ensures
            state == self@.state,
    {
        self.state
    }

    /// Takes the decoded first frame, or `None` where the frame held no
    /// envelope, and decides the connection's fate.
    pub fn on_envelope(&mut self, envelope: Option<AuthEnvelope>) -> (action: ConnectionAction)
        ensures
            (final(self)@, action@) == old(self)@.judge(presented(envelope)),
            final(self)@.secret == old(self)@.secret,
            action@ matches ActionView::RejectAndClose { attempted } ==> attempted != old(
                self,
            )@.secret,
    {
        match self.state {
            ConnectionState::AwaitingFirstFrame => match envelope {
                Some(envelope) => {
                    if token_matches(envelope.token(), self.secret.as_str()) {
                        self.state = ConnectionState::Authenticated;
                        ConnectionAction::HandOff
                    } else {
                        self.state = ConnectionState::Rejected;
                        ConnectionAction::RejectAndClose { attempted: envelope.into_token() }
                    }
                },
                None => {
                    self.state = ConnectionState::Rejected;
                    ConnectionAction::CloseSilently(CloseReason::EnvelopeDecodeFailure)
                },
            },
            _ => ConnectionAction::Ignore,
        }
    }

    /// Takes an event and returns what to do about it.
    ///
    /// Beyond the transition itself, the contract spells out the four ways in
    /// which the wait for the first frame can end.
    pub fn on_event(&mut self, event: ConnectionEvent) -> (action: ConnectionAction)
        ensures
            (final(self)@, action@) == old(self)@.step(event),
            final(self)@.secret == old(self)@.secret,
            action@ matches ActionView::RejectAndClose { attempted } ==> attempted != old(
                self,
            )@.secret,
            old(self)@.state.is_final() ==> final(self)@ == old(self)@ && action@ is Ignore,
            old(self)@.state is AwaitingFirstFrame ==> match event {
                ConnectionEvent::FrameReceived(frame) => match frame.presented_token() {
                    Some(token) => if token == old(self)@.secret {
                        &&& final(self)@.state is Authenticated
                        &&& action@ is HandOff
                        &&& action@.frames_to_peer() == Seq::<Seq<char>>::empty()
                    } else {
                        &&& final(self)@.state is Rejected
                        &&& action@ == (ActionView::RejectAndClose { attempted: token })
                        &&& action@.frames_to_peer() == seq![REJECTION_NOTICE@]
                        &&& !action@.hands_off()
                    },
                    None => {
                        &&& final(self)@.state is Rejected
                        &&& action@ == ActionView::CloseSilently(
                            CloseReason::EnvelopeDecodeFailure,
                        )
                        &&& action@.frames_to_peer() == Seq::<Seq<char>>::empty()
                        &&& !action@.hands_off()
                    },
                },
                ConnectionEvent::StreamEnded => {
                    &&& final(self)@.state is Closed
                    &&& action@ == ActionView::CloseSilently(CloseReason::EarlyClose)
                    &&& action@.frames_to_peer() == Seq::<Seq<char>>::empty()
                    &&& !action@.hands_off()
                },
                _ => final(self)@ == old(self)@ && action@ is Ignore,
            },
    {
        match self.state {
            ConnectionState::AwaitingUpgrade => match event {
                ConnectionEvent::UpgradeCompleted => {
                    self.state = ConnectionState::AwaitingFirstFrame;
                    ConnectionAction::AwaitFirstFrame
                },
                ConnectionEvent::UpgradeFailed => {
                    self.state = ConnectionState::Closed;
                    ConnectionAction::CloseSilently(CloseReason::UpgradeFailure)
                },
                _ => ConnectionAction::Ignore,
            },
            ConnectionState::AwaitingFirstFrame => match event {
                ConnectionEvent::FrameReceived(frame) => {
                    let envelope = AuthEnvelope::from_frame(&frame);
                    self.on_envelope(envelope)
                },
                ConnectionEvent::StreamEnded => {
                    self.state = ConnectionState::Closed;
                    ConnectionAction::CloseSilently(CloseReason::EarlyClose)
                },
                _ => ConnectionAction::Ignore,
            },
            _ => ConnectionAction::Ignore,
        }
    }
}


impl ConnectionView {
    /// The connection after it has handled `events` in order.
    pub open spec fn run(self, events: Seq<ConnectionEvent>) -> ConnectionView
        decreases events.len(),
    {
        if events.len() == 0 {
            self
        } else {
            self.step(events[0]).0.run(events.drop_first())
        }
    }

    /// The actions that handling `events` in order calls for, one for each
    /// event.
    pub open spec fn actions(self, events: Seq<ConnectionEvent>) -> Seq<ActionView>
        decreases events.len(),
    {
        if events.len() == 0 {
            Seq::empty()
        } else {
            seq![self.step(events[0]).1] + self.step(events[0]).0.actions(events.drop_first())
        }
    }
}

/// All the frames that carrying out `actions` in order sends to the peer.
pub open spec fn frames_sent(actions: Seq<ActionView>) -> Seq<Seq<char>>
    decreases actions.len(),
{
    if actions.len() == 0 {
        Seq::empty()
    } else {
        actions[0].frames_to_peer() + frames_sent(actions.drop_first())
    }
}

/// How many of `actions` hand the connection off.
pub open spec fn hand_offs(actions: Seq<ActionView>) -> nat
    decreases actions.len(),
{
    if actions.len() == 0 {
        0
    } else if actions[0].hands_off() {
        1 + hand_offs(actions.drop_first())
    } else {
        hand_offs(actions.drop_first())
    }
}

/// The frames sent and the hand-offs made by a first action followed by
/// further ones are those of the first, then those of the rest.
pub proof fn lemma_effects_of_first_action(first: ActionView, rest: Seq<ActionView>)
    ensures
        frames_sent(seq![first] + rest) == first.frames_to_peer() + frames_sent(rest),
        hand_offs(seq![first] + rest) == hand_offs(rest) + if first.hands_off() {
            1nat
        } else {
            0nat
        },
{
    assert((seq![first] + rest).drop_first() =~= rest);
}

/// Handling a first event and then further ones: the state is that reached
/// from the first step, and the actions are the first step's action followed
/// by those of the rest.
pub proof fn lemma_run_unfolds(
    connection: ConnectionView,
    first: ConnectionEvent,
    rest: Seq<ConnectionEvent>,
)
    ensures
        connection.run(seq![first] + rest) == connection.step(first).0.run(rest),
        connection.actions(seq![first] + rest) == seq![connection.step(first).1]
            + connection.step(first).0.actions(rest),
{
    assert((seq![first] + rest).drop_first() =~= rest);
}

/// A step never changes the secret and never moves a connection backwards;
/// a connection in a final state stays as it is and calls for nothing.
pub proof fn lemma_step_moves_forward(connection: ConnectionView, event: ConnectionEvent)
    ensures
        connection.step(event).0.secret == connection.secret,
        connection.step(event).0.state.progress() >= connection.state.progress(),
        connection.state.is_final() ==> connection.step(event) == (connection, ActionView::Ignore),
        connection.step(event).0.state != connection.state ==> connection.step(
            event,
        ).0.state.progress() > connection.state.progress(),
{
}

/// Whatever events a connection handles, it keeps its secret and never moves
/// backwards.
pub proof fn lemma_run_moves_forward(connection: ConnectionView, events: Seq<ConnectionEvent>)
    ensures
        connection.run(events).secret == connection.secret,
        connection.run(events).state.progress() >= connection.state.progress(),
        connection.actions(events).len() == events.len(),
    decreases events.len(),
{
    if events.len() > 0 {
        lemma_step_moves_forward(connection, events[0]);
        lemma_run_moves_forward(connection.step(events[0]).0, events.drop_first());
    }
}

/// Once a connection is authenticated, rejected or closed, no sequence of
/// events changes it, sends the peer a frame, or hands it off.
pub proof fn lemma_final_state_is_final(connection: ConnectionView, events: Seq<ConnectionEvent>)
    requires
        connection.state.is_final(),
    ensures
        connection.run(events) == connection,
        frames_sent(connection.actions(events)) == Seq::<Seq<char>>::empty(),
        hand_offs(connection.actions(events)) == 0,
        forall|i: int| 0 <= i < events.len() ==> connection.actions(events)[i] is Ignore,
    decreases events.len(),
{
    if events.len() > 0 {
        let rest = events.drop_first();
        lemma_final_state_is_final(connection, rest);
        lemma_run_moves_forward(connection, rest);
        lemma_effects_of_first_action(ActionView::Ignore, connection.actions(rest));
        assert(connection.actions(events) == seq![ActionView::Ignore] + connection.actions(rest));
        assert forall|i: int| 0 <= i < events.len() implies connection.actions(
            events,
        )[i] is Ignore by {
            if i > 0 {
                assert(connection.actions(events)[i] == connection.actions(rest)[i - 1]);
            }
        }
    }
}

/// Over its whole life a connection causes at most one thing that others
/// can see: either one frame to the peer, which is then the rejection
/// notice, or one hand-off, and never both.
pub proof fn lemma_at_most_one_effect(connection: ConnectionView, events: Seq<ConnectionEvent>)
    ensures
        frames_sent(connection.actions(events)).len() + hand_offs(connection.actions(events)) <= 1,
        frames_sent(connection.actions(events)) == Seq::<Seq<char>>::empty() || frames_sent(
            connection.actions(events),
        ) == seq![REJECTION_NOTICE@],
        hand_offs(connection.actions(events)) == 1 ==> connection.run(
            events,
        ).state is Authenticated,
        frames_sent(connection.actions(events)).len() == 1 ==> connection.run(
            events,
        ).state is Rejected,
    decreases events.len(),
{
    if events.len() > 0 {
        let (next, action) = connection.step(events[0]);
        let rest = events.drop_first();
        lemma_effects_of_first_action(action, next.actions(rest));
        if next.state.is_final() {
            lemma_final_state_is_final(next, rest);
        } else {
            lemma_at_most_one_effect(next, rest);
        }
    }
}

/// A connection whose first frame presents the secret is authenticated and
/// handed off exactly once, and its peer is never sent a frame, whatever
/// happens afterwards.
pub proof fn lemma_secret_is_handed_off(
    connection: ConnectionView,
    frame: Frame,
    later: Seq<ConnectionEvent>,
)
    requires
        connection.state is AwaitingFirstFrame,
        frame.presented_token() == Some(connection.secret),
    ensures
        connection.run(seq![ConnectionEvent::FrameReceived(frame)] + later).state is Authenticated,
        connection.actions(seq![ConnectionEvent::FrameReceived(frame)] + later)[0] is HandOff,
        hand_offs(connection.actions(seq![ConnectionEvent::FrameReceived(frame)] + later)) == 1,
        frames_sent(connection.actions(seq![ConnectionEvent::FrameReceived(frame)] + later))
            == Seq::<Seq<char>>::empty(),
{
    let first = ConnectionEvent::FrameReceived(frame);
    let (next, action) = connection.step(first);
    lemma_run_unfolds(connection, first, later);
    lemma_final_state_is_final(next, later);
    lemma_effects_of_first_action(action, next.actions(later));
}

/// A connection whose first frame presents a token other than the secret is
/// rejected: its peer is sent the rejection notice, once, and nothing else;
/// the connection is closed and never handed off.
pub proof fn lemma_wrong_token_is_rejected(
    connection: ConnectionView,
    frame: Frame,
    later: Seq<ConnectionEvent>,
)
    requires
        connection.state is AwaitingFirstFrame,
        frame.presented_token() is Some,
        frame.presented_token() != Some(connection.secret),
    ensures
        connection.run(seq![ConnectionEvent::FrameReceived(frame)] + later).state is Rejected,
        connection.actions(seq![ConnectionEvent::FrameReceived(frame)] + later)[0] == (
            ActionView::RejectAndClose { attempted: frame.presented_token().unwrap() }),
        connection.actions(seq![ConnectionEvent::FrameReceived(frame)] + later)[0].closes(),
        frames_sent(connection.actions(seq![ConnectionEvent::FrameReceived(frame)] + later))
            == seq![REJECTION_NOTICE@],
        hand_offs(connection.actions(seq![ConnectionEvent::FrameReceived(frame)] + later)) == 0,
{
    let first = ConnectionEvent::FrameReceived(frame);
    let (next, action) = connection.step(first);
    lemma_run_unfolds(connection, first, later);
    lemma_final_state_is_final(next, later);
    lemma_effects_of_first_action(action, next.actions(later));
}

/// A connection whose first frame holds no envelope is closed without a
/// single frame to the peer, and never handed off.
pub proof fn lemma_undecodable_frame_closes_silently(
    connection: ConnectionView,
    frame: Frame,
    later: Seq<ConnectionEvent>,
)
    requires
        connection.state is AwaitingFirstFrame,
        frame.presented_token() is None,
    ensures
        connection.run(seq![ConnectionEvent::FrameReceived(frame)] + later).state is Rejected,
        connection.actions(seq![ConnectionEvent::FrameReceived(frame)] + later)[0]
            == ActionView::CloseSilently(CloseReason::EnvelopeDecodeFailure),
        connection.actions(seq![ConnectionEvent::FrameReceived(frame)] + later)[0].closes(),
        frames_sent(connection.actions(seq![ConnectionEvent::FrameReceived(frame)] + later))
            == Seq::<Seq<char>>::empty(),
        hand_offs(connection.actions(seq![ConnectionEvent::FrameReceived(frame)] + later)) == 0,
{
    let first = ConnectionEvent::FrameReceived(frame);
    let (next, action) = connection.step(first);
    lemma_run_unfolds(connection, first, later);
    lemma_final_state_is_final(next, later);
    lemma_effects_of_first_action(action, next.actions(later));
}

/// A connection that ends before its first frame is closed: no frame is
/// sent to the peer, and it is never handed off.
pub proof fn lemma_early_close_is_silent(connection: ConnectionView, later: Seq<ConnectionEvent>)
    requires
        connection.state is AwaitingFirstFrame,
    ensures
        connection.run(seq![ConnectionEvent::StreamEnded] + later).state is Closed,
        connection.actions(seq![ConnectionEvent::StreamEnded] + later)[0]
            == ActionView::CloseSilently(CloseReason::EarlyClose),
        frames_sent(connection.actions(seq![ConnectionEvent::StreamEnded] + later))
            == Seq::<Seq<char>>::empty(),
        hand_offs(connection.actions(seq![ConnectionEvent::StreamEnded] + later)) == 0,
{
    let first = ConnectionEvent::StreamEnded;
    let (next, action) = connection.step(first);
    lemma_run_unfolds(connection, first, later);
    lemma_final_state_is_final(next, later);
    lemma_effects_of_first_action(action, next.actions(later));
}

/// A connection whose upgrade fails is dropped: no frame is sent, and it is
/// never handed off.
pub proof fn lemma_failed_upgrade_is_dropped(
    connection: ConnectionView,
    later: Seq<ConnectionEvent>,
)
    requires
        connection.state is AwaitingUpgrade,
    ensures
        connection.run(seq![ConnectionEvent::UpgradeFailed] + later).state is Closed,
        connection.actions(seq![ConnectionEvent::UpgradeFailed] + later)[0]
            == ActionView::CloseSilently(CloseReason::UpgradeFailure),
        frames_sent(connection.actions(seq![ConnectionEvent::UpgradeFailed] + later))
            == Seq::<Seq<char>>::empty(),
        hand_offs(connection.actions(seq![ConnectionEvent::UpgradeFailed] + later)) == 0,
{
    let first = ConnectionEvent::UpgradeFailed;
    let (next, action) = connection.step(first);
    lemma_run_unfolds(connection, first, later);
    lemma_final_state_is_final(next, later);
    lemma_effects_of_first_action(action, next.actions(later));
}

} // verus!
