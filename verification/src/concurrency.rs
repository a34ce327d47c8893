//! Several connections served side by side.
//!
//! Each connection is a unit of work of its own, and a scheduler interleaves
//! their events as it sees fit. Here that is a schedule: a sequence of
//! events, each addressed to one connection. What a connection goes through
//! depends on its own events alone.

use vstd::prelude::*;
use crate::connection::{
    lemma_run_unfolds, ActionView, ConnectionEvent, ConnectionView, REJECTION_NOTICE,
};
use crate::envelope::Frame;
use crate::server::{dispatches, lemma_counts_of_first_action, ServerActionView, ServerEvent, ServerView};

verus! {

/// An event together with the connection that it belongs to, given by its
/// position among the connections served.
pub struct Addressed {
    pub to: int,
    pub event: ConnectionEvent,
}

/// The connections after one addressed event: only the connection that the
/// event belongs to takes a step.
pub open spec fn step_all(connections: Seq<ConnectionView>, next: Addressed) -> Seq<
    ConnectionView,
> {
    if 0 <= next.to < connections.len() {
        connections.update(next.to, connections[next.to].step(next.event).0)
    } else {
        connections
    }
}

/// The connections after a whole schedule.
pub open spec fn run_all(connections: Seq<ConnectionView>, schedule: Seq<Addressed>) -> Seq<
    ConnectionView,
>
    decreases schedule.len(),
{
    if schedule.len() == 0 {
        connections
    } else {
        run_all(step_all(connections, schedule[0]), schedule.drop_first())
    }
}

/// The actions that a schedule calls for on behalf of connection `who`, in
/// order.
pub open spec fn actions_for(
    connections: Seq<ConnectionView>,
    schedule: Seq<Addressed>,
    who: int,
) -> Seq<ActionView>
    decreases schedule.len(),
{
    if schedule.len() == 0 {
        Seq::empty()
    } else {
        let first = if schedule[0].to == who && 0 <= who < connections.len() {
            seq![connections[who].step(schedule[0].event).1]
        } else {
            Seq::empty()
        };
        first + actions_for(step_all(connections, schedule[0]), schedule.drop_first(), who)
    }
}

/// The events of a schedule that belong to connection `who`, in order.
pub open spec fn events_for(schedule: Seq<Addressed>, who: int) -> Seq<ConnectionEvent>
    decreases schedule.len(),
{
    if schedule.len() == 0 {
        Seq::empty()
    } else {
        let first = if schedule[0].to == who {
            seq![schedule[0].event]
        } else {
            Seq::empty()
        };
        first + events_for(schedule.drop_first(), who)
    }
}

/// Connections do not interfere: under any schedule, each connection ends
/// in the state, and is told to do the things, that its own events alone
/// would have led to. Events of other connections, wherever they fall in
/// between, change nothing for it.
pub proof fn lemma_connections_do_not_interfere(
    connections: Seq<ConnectionView>,
    schedule: Seq<Addressed>,
    who: int,
)
    requires
        0 <= who < connections.len(),
    ensures
        run_all(connections, schedule).len() == connections.len(),
        run_all(connections, schedule)[who] == connections[who].run(events_for(schedule, who)),
        actions_for(connections, schedule, who) == connections[who].actions(
            events_for(schedule, who),
        ),
    decreases schedule.len(),
{
    if schedule.len() > 0 {
        let next = schedule[0];
        let rest = schedule.drop_first();
        let stepped = step_all(connections, next);
        lemma_connections_do_not_interfere(stepped, rest, who);
        if next.to == who {
            lemma_run_unfolds(connections[who], next.event, events_for(rest, who));
        } else {
            assert(events_for(schedule, who) =~= events_for(rest, who));
            assert(actions_for(connections, schedule, who) =~= actions_for(stepped, rest, who));
        }
    }
}

/// Two connections await their first frame at the same time; one presents
/// the secret, the other a wrong token. Whichever of the two frames is
/// handled first, the first connection is authenticated and handed off, and
/// the second is rejected with the notice.
pub proof fn lemma_mixed_outcomes_either_order(
    valid: ConnectionView,
    invalid: ConnectionView,
    good: Frame,
    bad: Frame,
    valid_first: bool,
)
    requires
        valid.state is AwaitingFirstFrame,
        invalid.state is AwaitingFirstFrame,
        good.presented_token() == Some(valid.secret),
        bad.presented_token() is Some,
        bad.presented_token() != Some(invalid.secret),
    ensures
        ({
            let to_valid = Addressed { to: 0, event: ConnectionEvent::FrameReceived(good) };
            let to_invalid = Addressed { to: 1, event: ConnectionEvent::FrameReceived(bad) };
            let schedule = if valid_first {
                seq![to_valid, to_invalid]
            } else {
                seq![to_invalid, to_valid]
            };
            let after = run_all(seq![valid, invalid], schedule);
            &&& after[0].state is Authenticated
            &&& after[1].state is Rejected
            &&& actions_for(seq![valid, invalid], schedule, 0) == seq![ActionView::HandOff]
            &&& actions_for(seq![valid, invalid], schedule, 1) == seq![
                ActionView::RejectAndClose { attempted: bad.presented_token().unwrap() },
            ]
            &&& actions_for(seq![valid, invalid], schedule, 1)[0].frames_to_peer()
                == seq![REJECTION_NOTICE@]
        }),
{
    let to_valid = Addressed { to: 0, event: ConnectionEvent::FrameReceived(good) };
    let to_invalid = Addressed { to: 1, event: ConnectionEvent::FrameReceived(bad) };
    let schedule = if valid_first {
        seq![to_valid, to_invalid]
    } else {
        seq![to_invalid, to_valid]
    };
    let connections = seq![valid, invalid];
    lemma_connections_do_not_interfere(connections, schedule, 0);
    lemma_connections_do_not_interfere(connections, schedule, 1);
    lemma_events_of_two(to_valid, to_invalid, valid_first);
    let good_events = seq![ConnectionEvent::FrameReceived(good)];
    let bad_events = seq![ConnectionEvent::FrameReceived(bad)];
    assert(good_events =~= good_events + Seq::<ConnectionEvent>::empty());
    assert(bad_events =~= bad_events + Seq::<ConnectionEvent>::empty());
    lemma_run_unfolds(valid, ConnectionEvent::FrameReceived(good), Seq::empty());
    lemma_run_unfolds(invalid, ConnectionEvent::FrameReceived(bad), Seq::empty());
}

/// The events of a schedule of two, one for each of two connections.
proof fn lemma_events_of_two(to_first: Addressed, to_second: Addressed, first_leads: bool)
    requires
        to_first.to == 0,
        to_second.to == 1,
    ensures
        ({
            let schedule = if first_leads {
                seq![to_first, to_second]
            } else {
                seq![to_second, to_first]
            };
            &&& events_for(schedule, 0) == seq![to_first.event]
            &&& events_for(schedule, 1) == seq![to_second.event]
        }),
{
    let schedule = if first_leads {
        seq![to_first, to_second]
    } else {
        seq![to_second, to_first]
    };
    let rest = schedule.drop_first();
    assert(rest.len() == 1);
    assert(rest.drop_first().len() == 0);
    assert(events_for(rest.drop_first(), 0) =~= Seq::empty());
    assert(events_for(rest.drop_first(), 1) =~= Seq::empty());
    assert(events_for(rest, 0) =~= if first_leads {
        Seq::empty()
    } else {
        seq![to_first.event]
    });
    assert(events_for(rest, 1) =~= if first_leads {
        seq![to_second.event]
    } else {
        Seq::empty()
    });
    assert(events_for(schedule, 0) =~= seq![to_first.event]);
    assert(events_for(schedule, 1) =~= seq![to_second.event]);
}


/// Something that happens in the service: to the acceptor, or to one of the
/// connections that it has dispatched.
pub enum Occurrence {
    AtServer(ServerEvent),
    AtConnection(Addressed),
}

/// The acceptor together with the connections that it has dispatched so
/// far, in the order in which they were accepted.
pub struct ServiceView {
    pub server: ServerView,
    pub connections: Seq<ConnectionView>,
}

impl ServiceView {
    /// The service after one occurrence. An event of the acceptor moves the
    /// acceptor, and adds a connection where it dispatches one; an event of a
    /// connection moves that connection.
    pub open spec fn step(self, occurrence: Occurrence) -> ServiceView {
        match occurrence {
            Occurrence::AtServer(event) => ServiceView {
                server: self.server.step(event).0,
                connections: match self.server.step(event).1 {
                    ServerActionView::Dispatch(connection) => self.connections.push(connection),
                    _ => self.connections,
                },
            },
            Occurrence::AtConnection(addressed) => ServiceView {
                server: self.server,
                connections: step_all(self.connections, addressed),
            },
        }
    }

    /// The service after a sequence of occurrences.
    pub open spec fn run(self, occurrences: Seq<Occurrence>) -> ServiceView
        decreases occurrences.len(),
    {
        if occurrences.len() == 0 {
            self
        } else {
            self.step(occurrences[0]).run(occurrences.drop_first())
        }
    }
}

/// The acceptor's events among `occurrences`, in order.
pub open spec fn server_events(occurrences: Seq<Occurrence>) -> Seq<ServerEvent>
    decreases occurrences.len(),
{
    if occurrences.len() == 0 {
        Seq::empty()
    } else {
        let first = match occurrences[0] {
            Occurrence::AtServer(event) => seq![event],
            Occurrence::AtConnection(_) => Seq::empty(),
        };
        first + server_events(occurrences.drop_first())
    }
}

/// The connections' events among `occurrences`, in order.
pub open spec fn connection_events(occurrences: Seq<Occurrence>) -> Seq<Addressed>
    decreases occurrences.len(),
{
    if occurrences.len() == 0 {
        Seq::empty()
    } else {
        let first = match occurrences[0] {
            Occurrence::AtServer(_) => Seq::empty(),
            Occurrence::AtConnection(addressed) => seq![addressed],
        };
        first + connection_events(occurrences.drop_first())
    }
}

/// Nothing that a connection goes through touches the acceptor: whatever
/// happens to the connections, and however it is interleaved, the acceptor
/// ends where its own events alone lead, and the service holds one more
/// connection for each one that the acceptor dispatched.
pub proof fn lemma_acceptor_is_unaffected(service: ServiceView, occurrences: Seq<Occurrence>)
    ensures
        service.run(occurrences).server == service.server.run(server_events(occurrences)),
        service.run(occurrences).connections.len() == service.connections.len() + dispatches(
            service.server.actions(server_events(occurrences)),
        ),
    decreases occurrences.len(),
{
    if occurrences.len() > 0 {
        let rest = occurrences.drop_first();
        lemma_acceptor_is_unaffected(service.step(occurrences[0]), rest);
        match occurrences[0] {
            Occurrence::AtServer(event) => {
                let (next, action) = service.server.step(event);
                assert((seq![event] + server_events(rest)).drop_first() =~= server_events(rest));
                lemma_counts_of_first_action(action, next.actions(server_events(rest)));
            },
            Occurrence::AtConnection(addressed) => {
                assert(server_events(occurrences) =~= server_events(rest));
            },
        }
    }
}

/// Nothing that the acceptor or another connection goes through touches a
/// connection: it ends where its own events alone lead.
pub proof fn lemma_connection_is_unaffected(
    service: ServiceView,
    occurrences: Seq<Occurrence>,
    who: int,
)
    requires
        0 <= who < service.connections.len(),
    ensures
        who < service.run(occurrences).connections.len(),
        service.run(occurrences).connections[who] == service.connections[who].run(
            events_for(connection_events(occurrences), who),
        ),
    decreases occurrences.len(),
{
    if occurrences.len() > 0 {
        let rest = occurrences.drop_first();
        let next = service.step(occurrences[0]);
        lemma_connection_is_unaffected(next, rest, who);
        match occurrences[0] {
            Occurrence::AtServer(event) => {
                assert(connection_events(occurrences) =~= connection_events(rest));
            },
            Occurrence::AtConnection(addressed) => {
                let schedule = connection_events(occurrences);
                assert(schedule.drop_first() =~= connection_events(rest));
                if addressed.to == who {
                    lemma_run_unfolds(
                        service.connections[who],
                        addressed.event,
                        events_for(connection_events(rest), who),
                    );
                } else {
                    assert(events_for(schedule, who) =~= events_for(connection_events(rest), who));
                }
            },
        }
    }
}

} // verus!
