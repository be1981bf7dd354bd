use roam::codec::encode_connect;
use roam::codec::encode_players_msg;
use roam::codec::encode_record;
use roam::codec::parse_datagram;
use roam::codec::parse_players_msg;
use roam::codec::Inbound;
use roam::player::Player;

fn p(x: u16, y: u16) -> Player {
    Player { x, y }
}

#[test]
fn encode_connect_is_token() {
    assert_eq!(encode_connect(), b"CONNECT".to_vec());
}

#[test]
fn encode_record_exact() {
    assert_eq!(encode_record(p(10, 20)), b"{\"x\":10,\"y\":20}".to_vec());
    assert_eq!(encode_record(p(0, 0)), b"{\"x\":0,\"y\":0}".to_vec());
    assert_eq!(encode_record(p(65535, 7)), b"{\"x\":65535,\"y\":7}".to_vec());
}

#[test]
fn encode_players_msg_empty() {
    let ps: Vec<Player> = Vec::new();
    assert_eq!(encode_players_msg(&ps), b"PLAYERS[]\n".to_vec());
}

#[test]
fn encode_players_msg_two() {
    let ps = vec![p(1, 2), p(30, 400)];
    assert_eq!(
        encode_players_msg(&ps),
        b"PLAYERS[{\"x\":1,\"y\":2},{\"x\":30,\"y\":400}]\n".to_vec()
    );
}

#[test]
fn parse_connect_token() {
    assert_eq!(parse_datagram(b"CONNECT"), Inbound::Connect);
}

#[test]
fn parse_record_datagram() {
    assert_eq!(parse_datagram(b"{\"x\":10,\"y\":20}"), Inbound::Update(p(10, 20)));
    assert_eq!(parse_datagram(b"{\"x\":0,\"y\":65535}"), Inbound::Update(p(0, 65535)));
}

#[test]
fn parse_datagram_round_trip() {
    for q in [p(0, 0), p(1, 2), p(9, 10), p(65535, 65535), p(12345, 678)] {
        assert_eq!(parse_datagram(&encode_record(q)), Inbound::Update(q));
    }
}

#[test]
fn malformed_datagrams_are_rejected() {
    let cases: Vec<&[u8]> = vec![
        b"",
        b"CONNEC",
        b"CONNECTX",
        b"connect",
        b"PLAYERS",
        b"{\"x\":10,\"y\":20",
        b"{\"x\":10,\"y\":20} ",
        b"{\"x\":10 ,\"y\":20}",
        b"{\"y\":10,\"x\":20}",
        b"{\"x\":01,\"y\":2}",
        b"{\"x\":65536,\"y\":2}",
        b"{\"x\":184467440737095516161844674407370955161618446744073709551616,\"y\":2}",
        b"{\"x\":-1,\"y\":2}",
        b"{\"x\":,\"y\":2}",
        b"\xff\xfe\x00\x9b random junk \x01",
    ];
    for c in cases {
        assert_eq!(parse_datagram(c), Inbound::Malformed);
    }
}

#[test]
fn parse_players_msg_round_trip() {
    let lists = vec![
        Vec::new(),
        vec![p(0, 0)],
        vec![p(10, 20), p(65535, 0), p(3, 4)],
    ];
    for ps in lists {
        let msg = encode_players_msg(&ps);
        assert_eq!(parse_players_msg(&msg), Some(ps));
    }
}

#[test]
fn parse_players_msg_rejects_malformed() {
    let cases: Vec<&[u8]> = vec![
        b"",
        b"PLAYERS",
        b"PLAYERS[]",
        b"PLAYERS[\n",
        b"PLAYERS[]\n\n",
        b"PLAYERS[{\"x\":1,\"y\":2},]\n",
        b"PLAYERS[{\"x\":1,\"y\":2}\n",
        b"PLAYERS[{\"x\":01,\"y\":2}]\n",
        b"players[]\n",
        b"CONNECT",
        b"{\"x\":1,\"y\":2}",
    ];
    for c in cases {
        assert_eq!(parse_players_msg(c), None);
    }
}
