use ws_gate::connection::{
    CloseReason, Connection, ConnectionAction, ConnectionEvent, ConnectionState, REJECTION_NOTICE,
};
use ws_gate::envelope::{AuthEnvelope, Frame};

fn text(payload: &str) -> ConnectionEvent {
    ConnectionEvent::FrameReceived(Frame::Text(payload.to_string()))
}

fn upgraded(secret: &str) -> Connection {
    let mut connection = Connection::new(secret.to_string());
    assert_eq!(
        connection.on_event(ConnectionEvent::UpgradeCompleted),
        ConnectionAction::AwaitFirstFrame
    );
    connection
}

fn every_event() -> Vec<ConnectionEvent> {
    vec![
        ConnectionEvent::UpgradeCompleted,
        ConnectionEvent::UpgradeFailed,
        text("{\"token\":\"abc123\"}"),
        text("{\"token\":\"xyz\"}"),
        text("garbage"),
        ConnectionEvent::FrameReceived(Frame::NonText),
        ConnectionEvent::StreamEnded,
    ]
}

#[test]
fn rejection_notice_has_its_fixed_text() {
    assert_eq!(REJECTION_NOTICE, "Неверный токен");
}

#[test]
fn new_connection_awaits_its_upgrade() {
    let connection = Connection::new("abc123".to_string());
    assert_eq!(connection.state(), ConnectionState::AwaitingUpgrade);
}

#[test]
fn completed_upgrade_awaits_the_first_frame() {
    let mut connection = Connection::new("abc123".to_string());
    let action = connection.on_event(ConnectionEvent::UpgradeCompleted);
    assert_eq!(action, ConnectionAction::AwaitFirstFrame);
    assert_eq!(action.reply(), None);
    assert_eq!(connection.state(), ConnectionState::AwaitingFirstFrame);
}

#[test]
fn failed_upgrade_drops_the_connection() {
    let mut connection = Connection::new("abc123".to_string());
    let action = connection.on_event(ConnectionEvent::UpgradeFailed);
    assert_eq!(action, ConnectionAction::CloseSilently(CloseReason::UpgradeFailure));
    assert_eq!(action.reply(), None);
    assert_eq!(connection.state(), ConnectionState::Closed);
}

#[test]
fn frames_are_ignored_before_the_upgrade() {
    let mut connection = Connection::new("abc123".to_string());
    assert_eq!(connection.on_event(text("{\"token\":\"abc123\"}")), ConnectionAction::Ignore);
    assert_eq!(connection.on_event(ConnectionEvent::StreamEnded), ConnectionAction::Ignore);
    assert_eq!(connection.state(), ConnectionState::AwaitingUpgrade);
}

#[test]
fn upgrade_events_are_ignored_after_the_upgrade() {
    let mut connection = upgraded("abc123");
    assert_eq!(connection.on_event(ConnectionEvent::UpgradeCompleted), ConnectionAction::Ignore);
    assert_eq!(connection.on_event(ConnectionEvent::UpgradeFailed), ConnectionAction::Ignore);
    assert_eq!(connection.state(), ConnectionState::AwaitingFirstFrame);
}

#[test]
fn the_secret_authenticates() {
    let mut connection = upgraded("abc123");
    let action = connection.on_event(text("{\"token\":\"abc123\"}"));
    assert_eq!(action, ConnectionAction::HandOff);
    assert_eq!(action.reply(), None);
    assert_eq!(connection.state(), ConnectionState::Authenticated);
}

#[test]
fn a_wrong_token_is_rejected_with_the_notice() {
    let mut connection = upgraded("abc123");
    let action = connection.on_event(text("{\"token\":\"xyz\"}"));
    assert_eq!(action, ConnectionAction::RejectAndClose { attempted: "xyz".to_string() });
    assert_eq!(action.reply(), Some("Неверный токен"));
    assert_eq!(connection.state(), ConnectionState::Rejected);
}

#[test]
fn a_near_miss_is_still_a_wrong_token() {
    for attempt in ["abc12", "abc1234", "ABC123", " abc123", "abc123 ", ""] {
        let mut connection = upgraded("abc123");
        let frame = format!("{{\"token\":\"{}\"}}", attempt);
        let action = connection.on_event(text(&frame));
        assert_eq!(action, ConnectionAction::RejectAndClose { attempted: attempt.to_string() });
        assert_eq!(connection.state(), ConnectionState::Rejected);
    }
}

#[test]
fn an_empty_secret_is_matched_by_an_empty_token_only() {
    let mut connection = upgraded("");
    assert_eq!(connection.on_event(text("{\"token\":\"\"}")), ConnectionAction::HandOff);
    let mut other = upgraded("");
    assert_eq!(
        other.on_event(text("{\"token\":\"a\"}")),
        ConnectionAction::RejectAndClose { attempted: "a".to_string() }
    );
}

#[test]
fn an_undecodable_frame_is_rejected_in_silence() {
    for payload in ["not json", "", "{\"user\":\"ann\"}", "{\"token\":7}", "[\"abc123\"]", "\"abc123\""] {
        let mut connection = upgraded("abc123");
        let action = connection.on_event(text(payload));
        assert_eq!(action, ConnectionAction::CloseSilently(CloseReason::EnvelopeDecodeFailure));
        assert_eq!(action.reply(), None);
        assert_eq!(connection.state(), ConnectionState::Rejected);
    }
}

#[test]
fn a_frame_without_text_is_rejected_in_silence() {
    let mut connection = upgraded("abc123");
    let action = connection.on_event(ConnectionEvent::FrameReceived(Frame::NonText));
    assert_eq!(action, ConnectionAction::CloseSilently(CloseReason::EnvelopeDecodeFailure));
    assert_eq!(action.reply(), None);
    assert_eq!(connection.state(), ConnectionState::Rejected);
}

#[test]
fn the_secret_as_bare_text_is_no_envelope() {
    let mut connection = upgraded("abc123");
    let action = connection.on_event(text("abc123"));
    assert_eq!(action, ConnectionAction::CloseSilently(CloseReason::EnvelopeDecodeFailure));
}

#[test]
fn a_stream_that_ends_early_closes_in_silence() {
    let mut connection = upgraded("abc123");
    let action = connection.on_event(ConnectionEvent::StreamEnded);
    assert_eq!(action, ConnectionAction::CloseSilently(CloseReason::EarlyClose));
    assert_eq!(action.reply(), None);
    assert_eq!(connection.state(), ConnectionState::Closed);
}

#[test]
fn final_states_take_no_further_event() {
    let openings = vec![
        (text("{\"token\":\"abc123\"}"), ConnectionState::Authenticated),
        (text("{\"token\":\"xyz\"}"), ConnectionState::Rejected),
        (text("garbage"), ConnectionState::Rejected),
        (ConnectionEvent::StreamEnded, ConnectionState::Closed),
    ];
    for (first, reached) in openings {
        let mut connection = upgraded("abc123");
        connection.on_event(first);
        assert_eq!(connection.state(), reached);
        for event in every_event() {
            let action = connection.on_event(event);
            assert_eq!(action, ConnectionAction::Ignore);
            assert_eq!(action.reply(), None);
            assert_eq!(connection.state(), reached);
        }
    }
    let mut dropped = Connection::new("abc123".to_string());
    dropped.on_event(ConnectionEvent::UpgradeFailed);
    for event in every_event() {
        assert_eq!(dropped.on_event(event), ConnectionAction::Ignore);
        assert_eq!(dropped.state(), ConnectionState::Closed);
    }
}

#[test]
fn only_the_first_frame_counts() {
    let mut connection = upgraded("abc123");
    connection.on_event(text("{\"token\":\"xyz\"}"));
    assert_eq!(connection.on_event(text("{\"token\":\"abc123\"}")), ConnectionAction::Ignore);
    assert_eq!(connection.state(), ConnectionState::Rejected);
}

#[test]
fn a_connection_sends_at_most_one_frame_and_never_after_a_hand_off() {
    let firsts = vec![
        text("{\"token\":\"abc123\"}"),
        text("{\"token\":\"xyz\"}"),
        text("garbage"),
        ConnectionEvent::StreamEnded,
    ];
    for first in firsts {
        let mut connection = upgraded("abc123");
        let mut frames = 0;
        let mut hand_offs = 0;
        let mut events = vec![first];
        events.extend(every_event());
        events.extend(every_event());
        for event in events {
            let action = connection.on_event(event);
            if let Some(frame) = action.reply() {
                assert_eq!(frame, REJECTION_NOTICE);
                frames += 1;
            }
            if action == ConnectionAction::HandOff {
                hand_offs += 1;
            }
        }
        assert!(frames + hand_offs <= 1);
        assert_eq!(hand_offs == 1, connection.state() == ConnectionState::Authenticated);
    }
}

#[test]
fn on_envelope_decides_on_a_decoded_frame() {
    let mut accepted = upgraded("abc123");
    let action = accepted.on_envelope(Some(AuthEnvelope::new("abc123".to_string())));
    assert_eq!(action, ConnectionAction::HandOff);
    assert_eq!(accepted.state(), ConnectionState::Authenticated);

    let mut rejected = upgraded("abc123");
    let action = rejected.on_envelope(Some(AuthEnvelope::new("xyz".to_string())));
    assert_eq!(action, ConnectionAction::RejectAndClose { attempted: "xyz".to_string() });
    assert_eq!(rejected.state(), ConnectionState::Rejected);

    let mut silent = upgraded("abc123");
    let action = silent.on_envelope(None);
    assert_eq!(action, ConnectionAction::CloseSilently(CloseReason::EnvelopeDecodeFailure));
    assert_eq!(silent.state(), ConnectionState::Rejected);
}

#[test]
fn on_envelope_decides_nothing_outside_the_wait_for_the_first_frame() {
    let mut early = Connection::new("abc123".to_string());
    let action = early.on_envelope(Some(AuthEnvelope::new("abc123".to_string())));
    assert_eq!(action, ConnectionAction::Ignore);
    assert_eq!(early.state(), ConnectionState::AwaitingUpgrade);

    let mut done = upgraded("abc123");
    done.on_event(ConnectionEvent::StreamEnded);
    let action = done.on_envelope(Some(AuthEnvelope::new("abc123".to_string())));
    assert_eq!(action, ConnectionAction::Ignore);
    assert_eq!(done.state(), ConnectionState::Closed);
    assert_eq!(done.on_envelope(None), ConnectionAction::Ignore);
}

#[test]
fn reply_is_the_notice_for_a_rejection_only() {
    assert_eq!(
        ConnectionAction::RejectAndClose { attempted: "xyz".to_string() }.reply(),
        Some(REJECTION_NOTICE)
    );
    assert_eq!(ConnectionAction::AwaitFirstFrame.reply(), None);
    assert_eq!(ConnectionAction::HandOff.reply(), None);
    assert_eq!(ConnectionAction::Ignore.reply(), None);
    for reason in [
        CloseReason::UpgradeFailure,
        CloseReason::EnvelopeDecodeFailure,
        CloseReason::EarlyClose,
    ] {
        assert_eq!(ConnectionAction::CloseSilently(reason).reply(), None);
    }
}

#[test]
fn scenario_three_clients() {
    let secret = "abc123";

    let mut a = upgraded(secret);
    let action = a.on_event(text("{\"token\":\"abc123\"}"));
    assert_eq!(action, ConnectionAction::HandOff);
    assert_eq!(action.reply(), None);
    assert_eq!(a.state(), ConnectionState::Authenticated);

    let mut b = upgraded(secret);
    let action = b.on_event(text("{\"token\":\"xyz\"}"));
    assert_eq!(action, ConnectionAction::RejectAndClose { attempted: "xyz".to_string() });
    assert_eq!(action.reply(), Some("Неверный токен"));
    assert_eq!(b.state(), ConnectionState::Rejected);
    assert_eq!(b.on_event(ConnectionEvent::StreamEnded), ConnectionAction::Ignore);

    let mut c = upgraded(secret);
    let action = c.on_event(text("this is not JSON"));
    assert_eq!(action, ConnectionAction::CloseSilently(CloseReason::EnvelopeDecodeFailure));
    assert_eq!(action.reply(), None);
    assert_eq!(c.state(), ConnectionState::Rejected);
}

#[test]
fn two_connections_in_either_order() {
    for valid_first in [true, false] {
        let mut valid = Connection::new("abc123".to_string());
        let mut invalid = Connection::new("abc123".to_string());
        invalid.on_event(ConnectionEvent::UpgradeCompleted);
        valid.on_event(ConnectionEvent::UpgradeCompleted);
        let (for_valid, for_invalid) = if valid_first {
            let first = valid.on_event(text("{\"token\":\"abc123\"}"));
            let second = invalid.on_event(text("{\"token\":\"xyz\"}"));
            (first, second)
        } else {
            let first = invalid.on_event(text("{\"token\":\"xyz\"}"));
            let second = valid.on_event(text("{\"token\":\"abc123\"}"));
            (second, first)
        };
        assert_eq!(for_valid, ConnectionAction::HandOff);
        assert_eq!(for_invalid, ConnectionAction::RejectAndClose { attempted: "xyz".to_string() });
        assert_eq!(valid.state(), ConnectionState::Authenticated);
        assert_eq!(invalid.state(), ConnectionState::Rejected);
    }
}
