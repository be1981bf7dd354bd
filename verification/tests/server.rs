use roam::codec::encode_record;
use roam::codec::parse_players_msg;
use roam::player::ClientAddr;
use roam::player::Player;
use roam::server::datagram_event;
use roam::server::Event;
use roam::server::Outgoing;
use roam::server::ServerCore;
use roam::table::PLAYER_LIFETIME;

fn addr(n: u16) -> ClientAddr {
    ClientAddr { ip: 0x0a000001, port: n }
}

fn p(x: u16, y: u16) -> Player {
    Player { x, y }
}

fn msg_to(out: &[Outgoing], dest: ClientAddr) -> Vec<Player> {
    for o in out {
        if o.dest == dest {
            return parse_players_msg(&o.bytes).expect("broadcast must decode");
        }
    }
    panic!("no broadcast for that address");
}

#[test]
fn datagram_event_classifies() {
    let a = addr(1);
    assert_eq!(datagram_event(a, b"CONNECT"), Some(Event::NewConnection(a)));
    assert_eq!(
        datagram_event(a, b"{\"x\":10,\"y\":20}"),
        Some(Event::UpdatePlayer(a, p(10, 20)))
    );
    assert_eq!(datagram_event(a, b"\x00\xffgarbage"), None);
}

#[test]
fn malformed_datagram_changes_nothing() {
    let mut core = ServerCore::new();
    core.handle_event(Event::NewConnection(addr(1)));
    // the receiver drops a malformed datagram: no event, no change
    assert_eq!(datagram_event(addr(2), b"\x9b\x00 neither token nor record"), None);
    assert_eq!(core.len(), 1);
    assert!(core.contains(addr(1)));
    assert!(!core.contains(addr(2)));
}

#[test]
fn broadcast_excludes_recipient() {
    let mut core = ServerCore::new();
    for n in 1..=3u16 {
        core.handle_event(Event::NewConnection(addr(n)));
        core.handle_event(Event::UpdatePlayer(addr(n), p(n, n)));
    }
    let out = core.handle_event(Event::BroadcastPlayers);
    assert_eq!(out.len(), 3);
    for n in 1..=3u16 {
        let list = msg_to(&out, addr(n));
        // a table of three yields two entries, never the recipient's own
        assert_eq!(list.len(), 2);
        assert!(!list.contains(&p(n, n)));
        for m in 1..=3u16 {
            if m != n {
                assert!(list.contains(&p(m, m)));
            }
        }
    }
}

#[test]
fn broadcast_to_lone_client_is_empty_list() {
    let mut core = ServerCore::new();
    core.handle_event(Event::NewConnection(addr(1)));
    let out = core.handle_event(Event::BroadcastPlayers);
    assert_eq!(out.len(), 1);
    assert_eq!(out[0].dest, addr(1));
    assert_eq!(out[0].bytes, b"PLAYERS[]\n".to_vec());
}

#[test]
fn connect_update_broadcast_scenario() {
    let a = addr(1);
    let b = addr(2);
    let mut core = ServerCore::new();
    // client a connects; the server stores it at the origin
    let ev = datagram_event(a, b"CONNECT").unwrap();
    core.handle_event(ev);
    assert_eq!(core.position_of(a), Some(p(0, 0)));
    // client a reports a position, through the real wire encoding
    let update = encode_record(p(10, 20));
    let ev = datagram_event(a, &update).unwrap();
    core.handle_event(ev);
    // a second client connects; the next broadcast tick sends it a
    // list holding a's position and not its own
    core.handle_event(Event::NewConnection(b));
    let out = core.handle_event(Event::BroadcastPlayers);
    let to_b = msg_to(&out, b);
    assert!(to_b.contains(&p(10, 20)));
    assert!(!to_b.contains(&p(0, 0)));
    assert_eq!(to_b, vec![p(10, 20)]);
    let to_a = msg_to(&out, a);
    assert_eq!(to_a, vec![p(0, 0)]);
}

#[test]
fn silent_client_disappears_from_broadcasts() {
    let a = addr(1);
    let b = addr(2);
    let mut core = ServerCore::new();
    core.handle_event(Event::NewConnection(a));
    core.handle_event(Event::NewConnection(b));
    assert_eq!(core.snapshot(), vec![(a, p(0, 0)), (b, p(0, 0))]);
    // half the window passes; b re-connects, a stays silent
    for _ in 0..(PLAYER_LIFETIME / 2) {
        core.handle_event(Event::Tick(1));
    }
    assert_eq!(core.liveness_of(a), Some(PLAYER_LIFETIME / 2));
    core.handle_event(Event::NewConnection(b));
    assert_eq!(core.liveness_of(b), Some(PLAYER_LIFETIME));
    let out = core.handle_event(Event::BroadcastPlayers);
    assert_eq!(out.len(), 2);
    // the rest of a's window elapses
    for _ in 0..(PLAYER_LIFETIME / 2) {
        core.handle_event(Event::Tick(1));
    }
    assert!(!core.contains(a));
    assert!(core.contains(b));
    let out = core.handle_event(Event::BroadcastPlayers);
    assert_eq!(out.len(), 1);
    assert_eq!(out[0].dest, b);
    let list = parse_players_msg(&out[0].bytes).unwrap();
    assert!(list.is_empty());
}

#[test]
fn non_broadcast_events_send_nothing() {
    let mut core = ServerCore::new();
    assert!(core.handle_event(Event::NewConnection(addr(1))).is_empty());
    assert!(core.handle_event(Event::UpdatePlayer(addr(1), p(1, 2))).is_empty());
    assert!(core.handle_event(Event::Tick(1)).is_empty());
}
