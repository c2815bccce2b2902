use teledustry::bridge::{help_text, is_help_listing, mentions_name, should_process_message, BridgeState};
use teledustry::command::GameCommandMap;
use teledustry::frame::OutputFrame;
use teledustry::sentinel::{inject_sentinels, sentinel_marker};

fn frame_of(lines: Vec<&[u8]>) -> OutputFrame {
    OutputFrame::from_lines(lines.into_iter().map(|l| l.to_vec()).collect())
}

#[test]
fn help_listing_is_detected_by_its_first_line() {
    assert!(is_help_listing(&frame_of(vec![b"Commands:", b"host - Starts hosting."])));
    assert!(is_help_listing(&frame_of(vec![b"Commands:"])));
    assert!(!is_help_listing(&frame_of(vec![b"Welcome"])));
    assert!(!is_help_listing(&frame_of(vec![b"Commands"])));
    assert!(!is_help_listing(&frame_of(vec![b"Commands: but longer"])));
    assert!(!is_help_listing(&frame_of(vec![])));
    assert!(!is_help_listing(&frame_of(vec![b"", b"Commands:"])));
}

#[test]
fn help_detection_reads_the_joined_text() {
    // The contract speaks of the frame's delivered text: a first line that
    // itself carries the newline-terminated prefix also matches.
    assert!(is_help_listing(&frame_of(vec![b"Commands:\nmore"])));
}

#[test]
fn mention_detection() {
    assert!(mentions_name(b"hello @bridgebot stop", b"bridgebot"));
    assert!(mentions_name(b"@bridgebot", b"bridgebot"));
    assert!(!mentions_name(b"hello bridgebot", b"bridgebot"));
    assert!(!mentions_name(b"@bridgebo", b"bridgebot"));
    assert!(!mentions_name(b"", b"bridgebot"));
    assert!(mentions_name(b"x@y", b"y"));
}

#[test]
fn operator_filter_rules() {
    // Only the operator is obeyed; in a group only when mentioned.
    assert!(should_process_message(true, false, false));
    assert!(should_process_message(true, false, true));
    assert!(!should_process_message(true, true, false));
    assert!(should_process_message(true, true, true));
    assert!(!should_process_message(false, false, false));
    assert!(!should_process_message(false, true, true));
}

#[test]
fn sentinel_injection_writes_the_marker_twice() {
    let out = inject_sentinels(b"host", &sentinel_marker());
    assert_eq!(out, b"host\nEND_CMD\nEND_CMD\n".to_vec());
}

#[test]
fn commands_alternate_with_frames() {
    let mut bridge = BridgeState::new();
    let marker = sentinel_marker();
    let first = bridge.submit_command(b"status", &marker);
    assert_eq!(first.unwrap(), b"status\nEND_CMD\nEND_CMD\n".to_vec());
    // A second command while the frame is in flight is refused.
    assert!(bridge.submit_command(b"status", &marker).is_none());
    assert!(bridge.complete_frame());
    assert!(bridge.submit_command(b"status", &marker).is_some());
    // Completing while idle reports that nothing was awaited.
    bridge.complete_frame();
    assert!(!bridge.complete_frame());
}

#[test]
fn help_reply_lists_sorted_entries_without_start() {
    let table = GameCommandMap::init(b"host - Starts hosting.");
    let text = help_text(&table);
    let expected = b"Commands:\n\
        /about About this bot\n\
        /help Print the help menu\n\
        /host Starts hosting\n\
        /output Send the output to this chat\n\
        /stop_output Stop sending the output to this chat\n\
        /uploadmap Upload a map to config/maps/"
        .to_vec();
    assert_eq!(String::from_utf8(text).unwrap(), String::from_utf8(expected).unwrap());
}
