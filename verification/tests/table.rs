use roam::player::ClientAddr;
use roam::player::Player;
use roam::table::SessionTable;
use roam::table::PLAYER_LIFETIME;

fn addr(n: u16) -> ClientAddr {
    ClientAddr { ip: 0x7f000001, port: n }
}

fn p(x: u16, y: u16) -> Player {
    Player { x, y }
}

#[test]
fn connect_creates_fresh_session() {
    let mut t = SessionTable::new();
    t.connect(addr(1));
    assert_eq!(t.len(), 1);
    assert_eq!(t.liveness_of(addr(1)), Some(PLAYER_LIFETIME));
    assert_eq!(t.position_of(addr(1)), Some(p(0, 0)));
}

#[test]
fn connect_twice_is_one_fresh_session() {
    let mut t = SessionTable::new();
    t.connect(addr(1));
    t.connect(addr(1));
    assert_eq!(t.len(), 1);
    // liveness is reset to the full lifetime, not accumulated
    assert_eq!(t.liveness_of(addr(1)), Some(PLAYER_LIFETIME));
}

#[test]
fn reconnect_resets_liveness_and_position() {
    let mut t = SessionTable::new();
    t.connect(addr(1));
    t.update_position(addr(1), p(5, 6));
    t.decay(10);
    assert_eq!(t.liveness_of(addr(1)), Some(PLAYER_LIFETIME - 10));
    t.connect(addr(1));
    assert_eq!(t.liveness_of(addr(1)), Some(PLAYER_LIFETIME));
    assert_eq!(t.position_of(addr(1)), Some(p(0, 0)));
}

#[test]
fn update_position_unknown_address_is_noop() {
    let mut t = SessionTable::new();
    t.connect(addr(1));
    t.update_position(addr(2), p(9, 9));
    assert_eq!(t.len(), 1);
    assert!(!t.contains(addr(2)));
}

#[test]
fn update_position_keeps_liveness() {
    let mut t = SessionTable::new();
    t.connect(addr(1));
    t.decay(3);
    t.update_position(addr(1), p(7, 8));
    assert_eq!(t.position_of(addr(1)), Some(p(7, 8)));
    assert_eq!(t.liveness_of(addr(1)), Some(PLAYER_LIFETIME - 3));
}

#[test]
fn decay_then_evict_at_exact_window() {
    // with lifetime 60 and one unit of decay per tick, a session
    // connected at tick 0 is still present at tick 59 and gone at 60
    let mut t = SessionTable::new();
    t.connect(addr(1));
    for _ in 0..59 {
        t.decay(1);
    }
    assert!(t.contains(addr(1)));
    assert_eq!(t.liveness_of(addr(1)), Some(1));
    t.decay(1);
    assert!(!t.contains(addr(1)));
    assert_eq!(t.len(), 0);
    assert_eq!(t.liveness_of(addr(1)), None);
}

#[test]
fn decay_preserves_positions_of_survivors() {
    let mut t = SessionTable::new();
    t.connect(addr(1));
    t.connect(addr(2));
    t.update_position(addr(2), p(10, 20));
    t.decay(1);
    assert_eq!(t.position_of(addr(2)), Some(p(10, 20)));
    assert_eq!(t.liveness_of(addr(2)), Some(PLAYER_LIFETIME - 1));
}

#[test]
fn decay_large_amount_evicts_everyone() {
    let mut t = SessionTable::new();
    t.connect(addr(1));
    t.connect(addr(2));
    t.decay(PLAYER_LIFETIME);
    assert_eq!(t.len(), 0);
}

#[test]
fn snapshot_lists_all_pairs_in_order() {
    let mut t = SessionTable::new();
    t.connect(addr(1));
    t.connect(addr(2));
    t.update_position(addr(1), p(1, 1));
    t.update_position(addr(2), p(2, 2));
    let snap = t.snapshot();
    assert_eq!(snap, vec![(addr(1), p(1, 1)), (addr(2), p(2, 2))]);
}
