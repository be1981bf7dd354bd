use roam::client::App;
use roam::client::ClientEvent;
use roam::client::KeyInput;
use roam::codec::encode_players_msg;
use roam::codec::parse_players_msg;
use roam::player::Player;

fn p(x: u16, y: u16) -> Player {
    Player { x, y }
}

#[test]
fn movement_steps_and_saturation() {
    let mut app = App::new();
    assert_eq!(app.own_player, p(0, 0));
    // moves at the origin saturate instead of wrapping
    app.handle_key_event(KeyInput::MoveUp);
    app.handle_key_event(KeyInput::MoveLeft);
    assert_eq!(app.own_player, p(0, 0));
    // one cell vertically, two cells horizontally
    app.handle_key_event(KeyInput::MoveDown);
    app.handle_key_event(KeyInput::MoveRight);
    assert_eq!(app.own_player, p(2, 1));
    app.handle_key_event(KeyInput::MoveUp);
    app.handle_key_event(KeyInput::MoveLeft);
    assert_eq!(app.own_player, p(0, 0));
}

#[test]
fn movement_saturates_at_maximum() {
    let mut app = App::new();
    app.own_player = p(65534, 65535);
    app.handle_key_event(KeyInput::MoveRight);
    app.handle_key_event(KeyInput::MoveDown);
    assert_eq!(app.own_player, p(65535, 65535));
}

#[test]
fn quit_keys_raise_exit() {
    let mut app = App::new();
    assert!(!app.exit);
    app.handle_key_event(KeyInput::Other);
    assert!(!app.exit);
    app.handle_key_event(KeyInput::Quit);
    assert!(app.exit);
}

#[test]
fn input_event_emits_own_position() {
    let mut app = App::new();
    let out = app.handle_event(ClientEvent::Input(KeyInput::MoveDown));
    assert_eq!(out, Some(p(0, 1)));
    let out = app.handle_event(ClientEvent::Input(KeyInput::Other));
    assert_eq!(out, Some(p(0, 1)));
}

#[test]
fn set_players_replaces_list() {
    let mut app = App::new();
    let out = app.handle_event(ClientEvent::SetPlayers(vec![p(1, 2), p(3, 4)]));
    assert_eq!(out, None);
    assert_eq!(app.players, vec![p(1, 2), p(3, 4)]);
    assert_eq!(app.own_player, p(0, 0));
}

#[test]
fn own_position_event_is_ignored() {
    let mut app = App::new();
    let out = app.handle_event(ClientEvent::OwnPosition(p(9, 9)));
    assert_eq!(out, None);
    assert_eq!(app.own_player, p(0, 0));
    assert!(app.players.is_empty());
}

#[test]
fn broadcast_feeds_set_players() {
    // the client half of the protocol: decode a broadcast, hand the
    // list to the state machine
    let wire = encode_players_msg(&vec![p(10, 20)]);
    let list = parse_players_msg(&wire).unwrap();
    let mut app = App::new();
    app.handle_event(ClientEvent::SetPlayers(list));
    assert_eq!(app.players, vec![p(10, 20)]);
}
