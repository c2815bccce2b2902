use teledustry::command::{forward_line, parse_help_line, CommandKind, GameCommandMap};

#[test]
fn scenario_help_text_compiles_to_table() {
    // "help" has no separator and is skipped; "ban-player" becomes the
    // forwarded /ban_player with its description trimmed; "exit" would
    // become /exit, which the denylist removes.
    let table = GameCommandMap::init(b"help\nban-player - Bans a player.\nexit - Stops the server.");
    let e = table.lookup(b"/ban_player").expect("/ban_player must be registered");
    assert_eq!(e.description, b"Bans a player".to_vec());
    assert!(matches!(e.kind, CommandKind::Forwarded));
    assert!(table.lookup(b"/exit").is_none());
}

#[test]
fn denylist_holds_whatever_the_listing_says() {
    for help in [
        &b"exit - Stops the server."[..],
        b"exit x\nexit y\nexit z",
        b"  exit - Stops the server.",
        b"",
    ] {
        let table = GameCommandMap::init(help);
        assert!(table.lookup(b"/exit").is_none(), "denied name leaked through");
    }
}

#[test]
fn builtins_are_seeded_and_never_overwritten() {
    let table = GameCommandMap::init(b"help prints something else entirely.");
    let help = table.lookup(b"/help").unwrap();
    assert_eq!(help.description, b"Print the help menu".to_vec());
    assert!(matches!(help.kind, CommandKind::Builtin));
    for name in [
        &b"/start"[..],
        b"/about",
        b"/help",
        b"/output",
        b"/stop_output",
        b"/uploadmap",
    ] {
        assert!(table.lookup(name).is_some(), "builtin missing");
    }
}

#[test]
fn listing_with_its_header_line_compiles() {
    // The full frame text starts with the separator-free "Commands:" line,
    // which is skipped like any other malformed line.
    let table =
        GameCommandMap::init(b"Commands:\nhost - Starts hosting.\nban-player - Bans a player.");
    assert!(table.lookup(b"/host").is_some());
    assert!(table.lookup(b"/ban_player").is_some());
    assert_eq!(table.len(), 8);
}

#[test]
fn tab_indented_lines_are_trimmed() {
    let table = GameCommandMap::init(b"\thost - Starts hosting.");
    assert_eq!(table.lookup(b"/host").unwrap().description, b"Starts hosting".to_vec());
}

#[test]
fn empty_listing_leaves_only_the_builtins() {
    let table = GameCommandMap::init(b"");
    assert_eq!(table.len(), 6);
}

#[test]
fn first_occurrence_of_a_name_wins() {
    let table = GameCommandMap::init(b"status - First one.\nstatus - Second one.");
    let e = table.lookup(b"/status").unwrap();
    assert_eq!(e.description, b"First one".to_vec());
}

#[test]
fn descriptions_are_trimmed_of_dash_prefix_and_trailing_dots() {
    let table = GameCommandMap::init(b"a - - Doubly dashed...\nb plain");
    assert_eq!(table.lookup(b"/a").unwrap().description, b"Doubly dashed".to_vec());
    assert_eq!(table.lookup(b"/b").unwrap().description, b"plain".to_vec());
}

#[test]
fn malformed_lines_are_skipped() {
    assert!(parse_help_line(b"noseparator").is_none());
    assert!(parse_help_line(b"").is_none());
    assert!(parse_help_line(b"   ").is_none());
    let e = parse_help_line(b"  kick-all - Kicks everyone.").unwrap();
    assert_eq!(e.name, b"/kick_all".to_vec());
    assert_eq!(e.description, b"Kicks everyone".to_vec());
}

#[test]
fn forwarding_reverses_the_normalization() {
    let args = vec![b"Alice".to_vec(), b"now".to_vec()];
    let line = forward_line(b"/ban_player", &args);
    assert_eq!(line, b"ban-player Alice now".to_vec());
    let bare = forward_line(b"/host", &Vec::new());
    assert_eq!(bare, b"host".to_vec());
}

#[test]
fn lookup_misses_unknown_names() {
    let table = GameCommandMap::init(b"host - Starts hosting.");
    assert!(table.lookup(b"/unknown").is_none());
    assert!(table.lookup(b"host").is_none(), "console-native name is not a remote name");
    assert!(table.lookup(b"/host").is_some());
}

#[test]
fn sorted_listing_orders_by_name_and_drops_start() {
    let table = GameCommandMap::init(b"zz - Last.\naa - First.");
    let sorted = table.sorted_for_listing();
    let names: Vec<Vec<u8>> = sorted.iter().map(|e| e.name.clone()).collect();
    assert_eq!(
        names,
        vec![
            b"/aa".to_vec(),
            b"/about".to_vec(),
            b"/help".to_vec(),
            b"/output".to_vec(),
            b"/stop_output".to_vec(),
            b"/uploadmap".to_vec(),
            b"/zz".to_vec(),
        ]
    );
}
