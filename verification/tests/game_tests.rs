use teledustry::game::Game;
use teledustry::sentinel::inject_sentinels;

#[test]
fn console_dialect_lines() {
    assert_eq!(Game::startup_banner(), b"[I] Server loaded. Type 'help' for help.".to_vec());
    assert_eq!(Game::boundary_line(), b"[E] Invalid command. Type 'help' for help.".to_vec());
    assert_eq!(Game::bootstrap_command(), b"help".to_vec());
}

#[test]
fn tuned_decoder_frames_console_output() {
    let mut d = Game::decoder(true);
    assert!(d.advance(Game::startup_banner()).is_none(), "banner must be discarded");
    assert!(d.advance(b"1 mods found".to_vec()).is_none());
    assert!(d.advance(Game::boundary_line()).is_none());
    let frame = d.advance(Game::boundary_line()).expect("boundary twice closes the frame");
    assert_eq!(frame.lines, vec![b"1 mods found".to_vec()]);
}

#[test]
fn tuned_decoder_without_banner_filter_keeps_the_banner() {
    let mut d = Game::decoder(false);
    assert!(d.advance(Game::startup_banner()).is_none());
    assert!(d.advance(Game::boundary_line()).is_none());
    let frame = d.advance(Game::boundary_line()).unwrap();
    assert_eq!(frame.lines, vec![b"[I] Server loaded. Type 'help' for help.".to_vec()]);
}

#[test]
fn bootstrap_command_is_injected_like_any_other() {
    let out = inject_sentinels(&Game::bootstrap_command(), b"END_CMD");
    assert_eq!(out, b"help\nEND_CMD\nEND_CMD\n".to_vec());
}
