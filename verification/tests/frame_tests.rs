use atc::frame::{Frame, ESCAPE, ESCAPED_ESCAPE, ESCAPED_FLAG, FLAG};

fn contents(frames: Vec<Frame>) -> Vec<Vec<u8>> {
    // The wire form starts with the flag; the rest is the escaped content,
    // which for these inputs holds no byte that needs escaping.
    frames.into_iter().map(|f| f.into_bytes()[1..].to_vec()).collect()
}

#[test]
fn new_frame_is_sent_after_a_flag() {
    let f = Frame::new(b"abc".to_vec());
    assert_eq!(f.into_bytes(), vec![FLAG, b'a', b'b', b'c']);
}

#[test]
fn encoding_escapes_flag_and_escape_bytes() {
    let f = Frame::new(vec![b'a', 0x7e, 0x7d, b'b']);
    assert_eq!(
        f.into_bytes(),
        vec![0x7e, b'a', 0x7d, 0x5e, 0x7d, 0x5d, b'b']
    );
}

#[test]
fn empty_frame_is_a_lone_flag() {
    assert_eq!(Frame::new(vec![]).into_bytes(), vec![FLAG]);
}

#[test]
fn parse_gives_back_the_bytes() {
    let bytes = vec![1u8, 2, 3];
    let frame = Frame::parse(&bytes).unwrap();
    assert_eq!(frame.into_bytes(), vec![FLAG, 1, 2, 3]);
}

#[test]
fn parse_sequence_splits_on_flags() {
    let (frames, rest) = Frame::parse_sequence(&[0x7e, b'a', b'b', 0x7e, b'c'], None);
    assert_eq!(contents(frames), vec![b"ab".to_vec(), b"c".to_vec()]);
    assert!(rest.is_empty());
}

#[test]
fn parse_sequence_skips_empty_frames() {
    let (frames, rest) = Frame::parse_sequence(&[0x7e, 0x7e, b'a', 0x7e, 0x7e], None);
    assert_eq!(contents(frames), vec![b"a".to_vec()]);
    assert!(rest.is_empty());
}

#[test]
fn parse_sequence_starts_with_existing_bytes() {
    let (frames, rest) = Frame::parse_sequence(&[b'y', 0x7e, b'z'], Some(vec![b'x']));
    assert_eq!(contents(frames), vec![b"xy".to_vec(), b"z".to_vec()]);
    assert!(rest.is_empty());
}

#[test]
fn parse_sequence_of_nothing() {
    let (frames, rest) = Frame::parse_sequence(&[], None);
    assert!(frames.is_empty());
    assert!(rest.is_empty());
    let (frames, rest) = Frame::parse_sequence(&[], Some(vec![b'q']));
    assert_eq!(contents(frames), vec![b"q".to_vec()]);
    assert!(rest.is_empty());
}

#[test]
fn parse_sequence_unescapes() {
    let (frames, _) = Frame::parse_sequence(&[0x7e, b'a', ESCAPE, ESCAPED_FLAG, ESCAPE, ESCAPED_ESCAPE], None);
    assert_eq!(frames.len(), 1);
    assert_eq!(
        frames[0].clone().into_bytes(),
        Frame::new(vec![b'a', FLAG, ESCAPE]).into_bytes()
    );
}

#[test]
fn parse_sequence_drops_unescaped_suffix_bytes() {
    let (frames, _) = Frame::parse_sequence(&[0x7e, b'a', 0x5d, b'b', 0x5e], None);
    assert_eq!(contents(frames), vec![b"ab".to_vec()]);
}

#[test]
fn parse_sequence_keeps_a_pending_escape() {
    // the escape waits across the byte 'a'
    let (frames, _) = Frame::parse_sequence(&[0x7d, b'a', 0x5d], None);
    assert_eq!(frames.len(), 1);
    assert_eq!(
        frames[0].clone().into_bytes(),
        Frame::new(vec![b'a', 0x7d]).into_bytes()
    );
}

#[test]
fn encoded_frames_parse_back() {
    let a = Frame::new(vec![1, 0x7e, 2]);
    let b = Frame::new(vec![0x7d, 0x7d]);
    let mut wire = a.clone().into_bytes();
    wire.extend(b.clone().into_bytes());
    let (frames, rest) = Frame::parse_sequence(&wire, None);
    assert!(rest.is_empty());
    assert_eq!(frames.len(), 2);
    assert_eq!(frames[0].clone().into_bytes(), a.into_bytes());
    assert_eq!(frames[1].clone().into_bytes(), b.into_bytes());
}

#[test]
fn frame_text_round_trip() {
    let f = Frame::from_text("héllo");
    assert_eq!(f.to_text(), Some("héllo".to_string()));
    assert_eq!(f.clone().into_text(), "héllo".to_string());
    let g = Frame::from_string("abc".to_string());
    assert_eq!(g.into_bytes(), vec![FLAG, b'a', b'b', b'c']);
}

#[test]
fn invalid_utf8_has_no_text() {
    let f = Frame::new(vec![0xff, 0xfe]);
    assert_eq!(f.to_text(), None);
}

#[test]
fn frame_display_text() {
    assert_eq!(Frame::from_text("hi").display_text(), "Frame<hi>");
}
