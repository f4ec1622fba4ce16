use atc::client::{delivery, is_terminate, next_attempt, ping_due, MAX_RECONNECTS, PING_INTERVAL_SECONDS};
use atc::command::{ChannelCommand, ServerCommand};
use atc::connector::ConnectorSession;
use atc::frame::Frame;
use atc::listener::{command_bytes, ListenerSession, Registration};

#[test]
fn command_bytes_are_the_frame_bytes() {
    assert_eq!(command_bytes(&ChannelCommand::Ping), vec![0x7e, b'@', b'p', b'i', b'n', b'g']);
}

#[test]
fn listener_registers_identified_connections() {
    let mut s = ListenerSession::new();
    assert!(s.pending_bytes().is_none());
    match s.closing_notice() {
        Registration::Unregister(id) => assert_eq!(id, ""),
        _ => panic!(),
    }
    match s.on_command(ChannelCommand::Identify("ab".into())) {
        Some(Registration::Register(id)) => assert_eq!(id, "ab"),
        _ => panic!(),
    }
    match s.closing_notice() {
        Registration::Unregister(id) => assert_eq!(id, "ab"),
        _ => panic!(),
    }
    match s.on_command(ChannelCommand::Terminate("cd".into())) {
        Some(Registration::Unregister(id)) => assert_eq!(id, "cd"),
        _ => panic!(),
    }
    assert!(s.on_command(ChannelCommand::Pong).is_none());
    assert!(s.on_command(ChannelCommand::ChannelMessage(("ab".into(), "x".into()))).is_none());
}

#[test]
fn listener_answers_ping_with_pong() {
    let mut s = ListenerSession::new();
    assert!(s.on_command(ChannelCommand::Ping).is_none());
    assert_eq!(s.pending_bytes(), Some(command_bytes(&ChannelCommand::Pong)));
    assert!(!s.write_failure_ends(false));
    assert_eq!(s.pending_bytes(), Some(command_bytes(&ChannelCommand::Pong)));
    assert!(s.write_failure_ends(true));
    s.on_written();
    assert!(s.pending_bytes().is_none());
}

#[test]
fn listener_writes_what_the_server_sends_down() {
    let mut s = ListenerSession::new();
    let m = ChannelCommand::ChannelMessage(("ab".into(), "hello".into()));
    s.on_downstream(m.clone());
    let bytes = s.pending_bytes().unwrap();
    let (frames, _) = Frame::parse_sequence(&bytes, None);
    assert_eq!(frames[0].clone().into_text(), "@message<ab>hello");
}

#[test]
fn connector_identifies_first() {
    let mut c = ConnectorSession::new("abc".into());
    let bytes = c.pending_bytes().unwrap();
    assert_eq!(bytes, command_bytes(&ChannelCommand::Identify("abc".into())));
    assert!(!c.write_failure_ends(false));
    assert!(c.pending_bytes().is_some());
    c.on_written();
    assert!(c.pending_bytes().is_none());
    assert!(c.write_failure_ends(true));
}

#[test]
fn connector_sends_only_user_commands() {
    assert!(ConnectorSession::is_outbound(&ChannelCommand::Ping));
    assert!(ConnectorSession::is_outbound(&ChannelCommand::Identify("a".into())));
    assert!(ConnectorSession::is_outbound(&ChannelCommand::Terminate("a".into())));
    assert!(!ConnectorSession::is_outbound(&ChannelCommand::Pong));
    assert!(!ConnectorSession::is_outbound(&ChannelCommand::ChannelMessage(("a".into(), "b".into()))));
    let mut c = ConnectorSession::new("abc".into());
    c.on_control(ChannelCommand::Terminate("abc".into()));
    assert_eq!(c.pending_bytes(), Some(command_bytes(&ChannelCommand::Terminate("abc".into()))));
}

#[test]
fn connector_forwards_only_its_messages() {
    let c = ConnectorSession::new("abc".into());
    assert!(c.is_for_me(&ChannelCommand::ChannelMessage(("abc".into(), "x".into()))));
    assert!(!c.is_for_me(&ChannelCommand::ChannelMessage(("abd".into(), "x".into()))));
    assert!(!c.is_for_me(&ChannelCommand::Identify("abc".into())));
}

#[test]
fn pings_every_five_seconds() {
    assert_eq!(PING_INTERVAL_SECONDS, 5);
    assert!(!ping_due(4));
    assert!(ping_due(5));
    assert!(ping_due(100));
}

#[test]
fn reconnects_at_most_nine_times() {
    assert_eq!(next_attempt(false, false, 0), None);
    assert_eq!(next_attempt(true, true, 0), None);
    assert_eq!(next_attempt(true, false, 0), Some(1));
    assert_eq!(next_attempt(true, false, MAX_RECONNECTS), Some(MAX_RECONNECTS + 1));
    assert_eq!(next_attempt(true, false, MAX_RECONNECTS + 1), None);
    let mut attempts = 0;
    let mut connections = 1;
    while let Some(n) = next_attempt(true, false, attempts) {
        attempts = n;
        connections += 1;
    }
    assert_eq!(connections, 10);
}

#[test]
fn client_helpers() {
    assert!(is_terminate(&ServerCommand::Terminate));
    assert!(!is_terminate(&ServerCommand::Message(None, "x".into())));
    assert_eq!(
        delivery(ChannelCommand::ChannelMessage(("a".into(), "b".into()))),
        Some(("a".to_string(), "b".to_string()))
    );
    assert_eq!(delivery(ChannelCommand::Ping), None);
}
