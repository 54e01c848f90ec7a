use storage::peers::PeerDatabase;
use storage::peers::PeerInfo;
use storage::peers::PeerLoadError;
use storage::peers::PeerStatus;

fn peer(ip: u128, status: PeerStatus) -> PeerInfo {
    PeerInfo { ip, status, last_connection: None, last_failure: None }
}

#[test]
fn test_count_peers_with_status() {
    let mut db = PeerDatabase::new();
    db.set_peer(peer(1, PeerStatus::Idle));
    db.set_peer(peer(2, PeerStatus::Banned));
    db.set_peer(peer(3, PeerStatus::OutAlive));
    db.set_peer(peer(4, PeerStatus::Idle));
    assert_eq!(2, db.count_peers_with_status(PeerStatus::Idle));
    assert_eq!(1, db.count_peers_with_status(PeerStatus::Banned));
    assert_eq!(1, db.count_peers_with_status(PeerStatus::OutAlive));
    assert_eq!(0, db.count_peers_with_status(PeerStatus::InAlive));
}

#[test]
fn test_set_peer_replaces() {
    let mut db = PeerDatabase::new();
    db.set_peer(peer(1, PeerStatus::Idle));
    db.set_peer(PeerInfo {
        ip: 1,
        status: PeerStatus::Banned,
        last_connection: Some(50),
        last_failure: None,
    });
    let entries = db.entries();
    assert_eq!(1, entries.len());
    assert_eq!(PeerStatus::Banned, entries[0].status);
    assert_eq!(Some(50), entries[0].last_connection);
}

#[test]
fn test_merge_candidate_peers() {
    let mut db = PeerDatabase::new();
    db.set_peer(PeerInfo {
        ip: 10,
        status: PeerStatus::OutAlive,
        last_connection: Some(7),
        last_failure: None,
    });
    db.merge_candidate_peers(&vec![10, 20, 30]);
    let entries = db.entries();
    assert_eq!(3, entries.len());
    // the known peer is untouched
    assert_eq!(PeerStatus::OutAlive, entries[0].status);
    assert_eq!(Some(7), entries[0].last_connection);
    // the new peers start idle with no history
    for e in entries.iter().skip(1) {
        assert_eq!(PeerStatus::Idle, e.status);
        assert_eq!(None, e.last_connection);
        assert_eq!(None, e.last_failure);
    }
    // merging again adds nothing
    db.merge_candidate_peers(&vec![20, 30]);
    assert_eq!(3, db.entries().len());
}

#[test]
fn test_prepare_dump_resets_statuses() {
    let mut db = PeerDatabase::new();
    db.set_peer(PeerInfo {
        ip: 1,
        status: PeerStatus::OutAlive,
        last_connection: Some(5),
        last_failure: Some(9),
    });
    db.set_peer(peer(2, PeerStatus::Banned));
    db.set_peer(peer(3, PeerStatus::InHandshaking));
    let dumped = db.prepare_dump();
    assert_eq!(3, dumped.len());
    assert_eq!(PeerStatus::Idle, dumped[0].status);
    assert_eq!(Some(5), dumped[0].last_connection);
    assert_eq!(Some(9), dumped[0].last_failure);
    assert_eq!(PeerStatus::Banned, dumped[1].status);
    assert_eq!(PeerStatus::Idle, dumped[2].status);
}

#[test]
fn test_validate_loaded_accepts_idle_and_banned() {
    let db = PeerDatabase::validate_loaded(vec![
        peer(1, PeerStatus::Idle),
        peer(2, PeerStatus::Banned),
    ])
    .unwrap();
    assert_eq!(2, db.entries().len());
}

#[test]
fn test_validate_loaded_last_entry_wins() {
    let db = PeerDatabase::validate_loaded(vec![
        peer(1, PeerStatus::Idle),
        peer(2, PeerStatus::Idle),
        peer(1, PeerStatus::Banned),
    ])
    .unwrap();
    let entries = db.entries();
    assert_eq!(2, entries.len());
    let one = entries.iter().find(|p| p.ip == 1).unwrap();
    assert_eq!(PeerStatus::Banned, one.status);
}

fn full_peer(
    ip: u128,
    status: PeerStatus,
    last_connection: Option<i64>,
    last_failure: Option<i64>,
) -> PeerInfo {
    PeerInfo { ip, status, last_connection, last_failure }
}

#[test]
fn test_get_connector_candidate_ips() {
    let mut db = PeerDatabase::new();
    // three idle candidates with distinct histories
    db.set_peer(full_peer(1, PeerStatus::Idle, Some(100), None));
    db.set_peer(full_peer(2, PeerStatus::Idle, Some(300), None));
    db.set_peer(full_peer(3, PeerStatus::Idle, None, Some(10)));
    // one live outgoing connection and one attempt under way
    db.set_peer(full_peer(4, PeerStatus::OutAlive, Some(400), None));
    db.set_peer(full_peer(5, PeerStatus::OutConnecting, None, None));
    // target 4, cap 8: shortfall 3, minus 1 pending attempt = 2 picks
    let picks = db.get_connector_candidate_ips(4, 8);
    assert_eq!(2, picks.len());
    // the most recently connected idle peers win
    assert_eq!(2, picks[0].ip);
    assert_eq!(1, picks[1].ip);
    // no capacity left: nothing picked
    let none = db.get_connector_candidate_ips(1, 8);
    assert_eq!(0, none.len());
    // attempt bound caps the picks
    let one = db.get_connector_candidate_ips(10, 2);
    assert_eq!(1, one.len());
    assert_eq!(2, one[0].ip);
}

#[test]
fn test_cleanup_trims_idle_and_banned() {
    let mut db = PeerDatabase::new();
    db.set_peer(full_peer(1, PeerStatus::Idle, Some(100), None));
    db.set_peer(full_peer(2, PeerStatus::Idle, Some(300), Some(5)));
    db.set_peer(full_peer(3, PeerStatus::Idle, None, None));
    db.set_peer(full_peer(4, PeerStatus::Banned, None, Some(50)));
    db.set_peer(full_peer(5, PeerStatus::Banned, None, Some(90)));
    db.set_peer(full_peer(6, PeerStatus::OutAlive, None, None));
    db.cleanup(2, 1);
    assert_eq!(2, db.count_peers_with_status(PeerStatus::Idle));
    assert_eq!(1, db.count_peers_with_status(PeerStatus::Banned));
    assert_eq!(1, db.count_peers_with_status(PeerStatus::OutAlive));
    let entries = db.entries();
    // the idle peer with no recorded connection was dropped
    assert!(!entries.iter().any(|p| p.ip == 3));
    // the banned peer with the older failure was dropped
    assert!(!entries.iter().any(|p| p.ip == 4));
    assert!(entries.iter().any(|p| p.ip == 5));
    // the live peer survived untouched
    assert!(entries.iter().any(|p| p.ip == 6));
}

#[test]
fn test_cleanup_under_limits_keeps_all() {
    let mut db = PeerDatabase::new();
    db.set_peer(full_peer(1, PeerStatus::Idle, None, None));
    db.set_peer(full_peer(2, PeerStatus::Banned, None, None));
    db.cleanup(10, 10);
    assert_eq!(2, db.entries().len());
}

#[test]
fn test_validate_loaded_rejects_empty() {
    let r = PeerDatabase::validate_loaded(vec![]);
    assert!(matches!(r, Err(PeerLoadError::EmptyPeersFile)));
}

#[test]
fn test_validate_loaded_rejects_live_status() {
    let r = PeerDatabase::validate_loaded(vec![
        peer(1, PeerStatus::Idle),
        peer(2, PeerStatus::InAlive),
    ]);
    assert!(matches!(r, Err(PeerLoadError::InvalidPeerStatus)));
}
