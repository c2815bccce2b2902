use teledustry::decoder::Decoder;

fn marker() -> Vec<u8> {
    b"<MARKER>".to_vec()
}

#[test]
fn frame_round_trip() {
    let mut d = Decoder::new(marker(), None);
    assert!(d.advance(b"first".to_vec()).is_none());
    assert!(d.advance(b"second".to_vec()).is_none());
    assert!(d.advance(b"third".to_vec()).is_none());
    assert!(d.advance(marker()).is_none());
    let frame = d.advance(marker()).expect("double marker must close the frame");
    assert_eq!(frame.lines, vec![b"first".to_vec(), b"second".to_vec(), b"third".to_vec()]);
    assert_eq!(frame.byte_length, 19);
}

#[test]
fn scenario_welcome_line() {
    // Raw output "Welcome\n", "<MARKER>\n", "<MARKER>\n" with the banner
    // filter disabled yields one frame whose lines are exactly ["Welcome"].
    let mut d = Decoder::new(marker(), None);
    assert!(d.advance_raw(b"Welcome\n").is_none());
    assert!(d.advance_raw(b"<MARKER>\n").is_none());
    let frame = d.advance_raw(b"<MARKER>\n").expect("frame must complete");
    assert_eq!(frame.lines, vec![b"Welcome".to_vec()]);
}

#[test]
fn empty_frame_from_silent_command() {
    let mut d = Decoder::new(marker(), None);
    assert!(d.advance(marker()).is_none());
    let frame = d.advance(marker()).expect("a silent command still closes a frame");
    assert!(frame.lines.is_empty());
    assert_eq!(frame.byte_length, 0);
}

#[test]
fn banner_line_is_discarded() {
    let banner = b"[I] Server loaded. Type 'help' for help.".to_vec();
    let mut d = Decoder::new(marker(), Some(banner.clone()));
    assert!(d.advance(b"kept".to_vec()).is_none());
    assert!(d.advance(banner).is_none());
    assert!(d.advance(marker()).is_none());
    let frame = d.advance(marker()).unwrap();
    assert_eq!(frame.lines, vec![b"kept".to_vec()]);
}

#[test]
fn banner_between_markers_does_not_break_the_boundary() {
    // The discarded banner does not count as "previous line", so the two
    // marker lines around it still close the frame.
    let banner = b"[I] Server loaded. Type 'help' for help.".to_vec();
    let mut d = Decoder::new(marker(), Some(banner.clone()));
    assert!(d.advance(b"output".to_vec()).is_none());
    assert!(d.advance(marker()).is_none());
    assert!(d.advance(banner).is_none());
    let frame = d.advance(marker()).expect("marker, banner, marker still closes");
    assert_eq!(frame.lines, vec![b"output".to_vec()]);
}

#[test]
fn lone_marker_is_legitimate_output() {
    let mut d = Decoder::new(marker(), None);
    assert!(d.advance(b"a".to_vec()).is_none());
    assert!(d.advance(marker()).is_none());
    assert!(d.advance(b"b".to_vec()).is_none());
    assert!(d.advance(marker()).is_none());
    let frame = d.advance(marker()).unwrap();
    assert_eq!(frame.lines, vec![b"a".to_vec(), b"<MARKER>".to_vec(), b"b".to_vec()]);
}

#[test]
fn decoder_resets_between_frames() {
    let mut d = Decoder::new(marker(), None);
    d.advance(b"one".to_vec());
    d.advance(marker());
    let first = d.advance(marker()).unwrap();
    assert_eq!(first.lines, vec![b"one".to_vec()]);
    d.advance(b"two".to_vec());
    d.advance(marker());
    let second = d.advance(marker()).unwrap();
    assert_eq!(second.lines, vec![b"two".to_vec()]);
}

#[test]
fn escape_codes_are_stripped_from_raw_lines() {
    // If the trusted stripping wrapper handed its input back unchanged, the
    // accumulated line would still carry the escape sequence.
    let mut d = Decoder::new(marker(), None);
    assert!(d.advance_raw(b"\x1b[32mWelcome\x1b[0m\n").is_none());
    assert!(d.advance_raw(b"<MARKER>\n").is_none());
    let frame = d.advance_raw(b"<MARKER>\n").unwrap();
    assert_eq!(frame.lines, vec![b"Welcome".to_vec()]);
}

#[test]
fn raw_line_without_trailing_newline_is_taken_whole() {
    let mut d = Decoder::new(marker(), None);
    assert!(d.advance_raw(b"tail without newline").is_none());
    assert!(d.advance_raw(b"<MARKER>\n").is_none());
    let frame = d.advance_raw(b"<MARKER>\n").unwrap();
    assert_eq!(frame.lines, vec![b"tail without newline".to_vec()]);
}

#[test]
fn no_frame_before_two_consecutive_markers() {
    let mut d = Decoder::new(marker(), None);
    for _ in 0..5 {
        assert!(d.advance(b"still going".to_vec()).is_none());
        assert!(d.advance(marker()).is_none());
    }
}
