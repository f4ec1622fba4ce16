use atc::command::{ChannelCommand, ServerCommand};
use atc::frame::Frame;

fn text_of(c: ChannelCommand) -> String {
    c.into_frame().into_text()
}

#[test]
fn commands_are_written_as_text() {
    assert_eq!(text_of(ChannelCommand::Identify("ab-12".into())), "@identify<ab-12>");
    assert_eq!(text_of(ChannelCommand::Terminate("ff".into())), "@terminate<ff>");
    assert_eq!(
        text_of(ChannelCommand::ChannelMessage(("1a".into(), "hello there".into()))),
        "@message<1a>hello there"
    );
    assert_eq!(text_of(ChannelCommand::Ping), "@ping");
    assert_eq!(text_of(ChannelCommand::Pong), "@pong");
}

#[test]
fn ping_and_pong_stand_alone() {
    assert!(matches!(ChannelCommand::parse_text("@ping"), Some(ChannelCommand::Ping)));
    assert!(matches!(ChannelCommand::parse_text("@pong"), Some(ChannelCommand::Pong)));
    assert!(ChannelCommand::parse_text("@pingx").is_none());
    assert!(ChannelCommand::parse_text("@pon").is_none());
}

#[test]
fn identify_takes_the_id() {
    match ChannelCommand::parse_text("@identify<0a-9f>") {
        Some(ChannelCommand::Identify(id)) => assert_eq!(id, "0a-9f"),
        _ => panic!("not an identification"),
    }
}

#[test]
fn identify_may_be_followed_by_anything() {
    match ChannelCommand::parse_text("@identify<abc>rest\nmore") {
        Some(ChannelCommand::Identify(id)) => assert_eq!(id, "abc"),
        _ => panic!("not an identification"),
    }
}

#[test]
fn terminate_takes_the_id() {
    match ChannelCommand::parse_text("@terminate<dead-beef>") {
        Some(ChannelCommand::Terminate(id)) => assert_eq!(id, "dead-beef"),
        _ => panic!("not a termination"),
    }
}

#[test]
fn message_takes_id_and_text() {
    match ChannelCommand::parse_text("@message<42>a <b> c") {
        Some(ChannelCommand::ChannelMessage((id, msg))) => {
            assert_eq!(id, "42");
            assert_eq!(msg, "a <b> c");
        }
        _ => panic!("not a message"),
    }
    match ChannelCommand::parse_text("@message<42>") {
        Some(ChannelCommand::ChannelMessage((id, msg))) => {
            assert_eq!(id, "42");
            assert_eq!(msg, "");
        }
        _ => panic!("not a message"),
    }
}

#[test]
fn message_with_line_break_is_refused() {
    assert!(ChannelCommand::parse_text("@message<42>a\nb").is_none());
}

#[test]
fn ids_hold_only_id_characters() {
    assert!(ChannelCommand::parse_text("@identify<xyz>").is_none());
    assert!(ChannelCommand::parse_text("@identify<>").is_none());
    assert!(ChannelCommand::parse_text("@identify<ABC>").is_none());
    assert!(ChannelCommand::parse_text("@identify<abc").is_none());
    assert!(ChannelCommand::parse_text("hello").is_none());
    assert!(ChannelCommand::parse_text("").is_none());
}

#[test]
fn unicode_decimal_digits_are_id_characters() {
    // ARABIC-INDIC DIGIT ONE and TWO are decimal digits
    match ChannelCommand::parse_text("@identify<\u{661}\u{662}>") {
        Some(ChannelCommand::Identify(id)) => assert_eq!(id, "\u{661}\u{662}"),
        _ => panic!("not an identification"),
    }
    // ROMAN NUMERAL ONE is a number but no decimal digit
    assert!(ChannelCommand::parse_text("@identify<\u{2160}>").is_none());
}

#[test]
fn frames_carry_commands() {
    let f = ChannelCommand::Identify("12".into()).into_frame();
    assert!(matches!(ChannelCommand::try_from_frame(f.clone()), Some(ChannelCommand::Identify(_))));
    assert!(matches!(ChannelCommand::from_frame(f), ChannelCommand::Identify(id) if id == "12"));
    assert!(ChannelCommand::try_from_frame(Frame::from_text("@bogus")).is_none());
    assert!(ChannelCommand::try_from_frame(Frame::new(vec![0xff])).is_none());
}

#[test]
fn commands_survive_the_wire() {
    let commands = vec![
        ChannelCommand::Identify("abc-1".into()),
        ChannelCommand::Terminate("abc-1".into()),
        ChannelCommand::ChannelMessage(("abc-1".into(), "status ~ {ok} ~".into())),
        ChannelCommand::Ping,
        ChannelCommand::Pong,
    ];
    let mut wire = vec![];
    for c in commands.iter() {
        wire.extend(c.clone().into_frame().into_bytes());
    }
    let (frames, rest) = Frame::parse_sequence(&wire, None);
    assert!(rest.is_empty());
    assert_eq!(frames.len(), commands.len());
    for (frame, c) in frames.into_iter().zip(commands.into_iter()) {
        assert_eq!(text_of(ChannelCommand::from_frame(frame)), text_of(c));
    }
}

#[test]
fn brackets_in_messages_do_not_survive_the_wire() {
    let c = ChannelCommand::ChannelMessage(("1".into(), "[x]^".into()));
    let (frames, _) = Frame::parse_sequence(&c.into_frame().into_bytes(), None);
    assert_eq!(frames[0].clone().into_text(), "@message<1>[x");
}

#[test]
fn server_commands_compare_and_clone() {
    let m = ServerCommand::Message(Some("a".into()), "b".into());
    assert_eq!(m.clone(), m);
    assert_ne!(m, ServerCommand::Terminate);
    assert_eq!(ServerCommand::Terminate.clone(), ServerCommand::Terminate);
}
