use tanks_arena::environment::Environment;
use tanks_arena::sessions::{Session, SessionRegistry};

#[test]
fn session_membership_operations() {
    let mut s = Session::new("ABCDE".to_string());
    assert_eq!(s.get_num_clients(), 0);
    s.insert_client("p1", true);
    s.insert_client("p2", false);
    s.insert_client("p3", true);
    assert_eq!(s.get_num_clients(), 3);
    assert!(s.contains_client("p2"));
    assert!(!s.contains_client("p4"));
    assert_eq!(s.get_client_ids(), vec!["p1".to_string(), "p2".to_string(), "p3".to_string()]);
    assert_eq!(s.get_clients_with_active_status(true), vec!["p1".to_string(), "p3".to_string()]);
    assert_eq!(s.get_clients_with_active_status(false), vec!["p2".to_string()]);
    s.insert_client("p1", false);
    assert_eq!(s.get_num_clients(), 3);
    assert_eq!(s.active_client_set(), vec!["p3".to_string()]);
    s.remove_client("p3");
    assert!(s.active_client_set().is_empty());
    assert!(!s.has_active_member());
}

#[test]
fn set_status_of_unknown_client_fails() {
    let mut s = Session::new("S".to_string());
    s.insert_client("p1", true);
    assert_eq!(s.set_client_active_status("p1", false), Ok(()));
    assert_eq!(s.get_clients_with_active_status(false), vec!["p1".to_string()]);
    assert_eq!(s.set_client_active_status("ghost", true), Err("ghost".to_string()));
    s.set_client_status("ghost", true);
    assert_eq!(s.get_num_clients(), 1);
    s.set_client_status("p1", true);
    assert_eq!(s.active_client_set(), vec!["p1".to_string()]);
}

#[test]
fn owner_leaves_and_ownership_passes() {
    let mut reg = SessionRegistry::new(Environment::new());
    assert!(reg.join("ROOM", "p1"));
    assert_eq!(reg.get("ROOM").unwrap().owner, Some("p1".to_string()));
    assert!(reg.join("ROOM", "p2"));
    reg.leave("ROOM", "p1");
    let s = reg.get("ROOM").unwrap();
    assert_eq!(s.owner, Some("p2".to_string()));
    assert_eq!(s.get_client_ids(), vec!["p2".to_string()]);
    assert_eq!(s.data.players.len(), 1);
}

#[test]
fn last_active_member_leaving_destroys_session() {
    let mut reg = SessionRegistry::new(Environment::new());
    reg.join("ROOM", "p1");
    reg.join("ROOM", "p2");
    reg.set_active("ROOM", "p2", false);
    assert!(reg.contains_session("ROOM"));
    reg.leave("ROOM", "p1");
    assert!(!reg.contains_session("ROOM"));
    assert!(reg.get("ROOM").is_none());
    assert_eq!(reg.len(), 0);
}

#[test]
fn disconnect_of_last_active_destroys_session() {
    let mut reg = SessionRegistry::new(Environment::new());
    reg.join("ROOM", "p1");
    reg.set_active("ROOM", "p1", false);
    assert!(!reg.contains_session("ROOM"));
}

#[test]
fn join_twice_is_idempotent() {
    let mut reg = SessionRegistry::new(Environment::new());
    assert!(reg.join("ROOM", "p1"));
    let after_first = format!("{:?}", reg);
    assert!(!reg.join("ROOM", "p1"));
    assert_eq!(format!("{:?}", reg), after_first);
    assert_eq!(reg.get("ROOM").unwrap().get_num_clients(), 1);
}

#[test]
fn every_live_session_has_an_active_member() {
    let mut reg = SessionRegistry::new(Environment::new());
    let ops: Vec<(&str, &str, u8)> = vec![
        ("A", "p1", 0),
        ("A", "p2", 0),
        ("B", "p3", 0),
        ("A", "p1", 2),
        ("B", "p3", 1),
        ("A", "p2", 1),
        ("C", "p4", 0),
        ("C", "p4", 2),
    ];
    for (sid, cid, op) in ops {
        match op {
            0 => {
                reg.join(sid, cid);
            }
            1 => reg.leave(sid, cid),
            _ => reg.set_active(sid, cid, false),
        }
        for s in &reg.sessions {
            assert!(s.has_active_member());
        }
    }
    assert_eq!(reg.len(), 0);
}

#[test]
fn ticking_one_session_leaves_the_other_alone() {
    let mut reg = SessionRegistry::new(Environment::new());
    reg.join("ABCDE", "a1");
    reg.join("FGHIJ", "f1");
    reg.set_player_movement("FGHIJ", "f1", &tanks_arena::geometry::Vector2::new(1, 0));
    reg.set_player_movement("ABCDE", "a1", &tanks_arena::geometry::Vector2::new(0, 1));
    reg.player_shoot("ABCDE", "a1");
    let before = format!("{:?}", reg.get("FGHIJ").unwrap());
    for _ in 0..1000 {
        reg.tick_session("ABCDE");
    }
    assert_eq!(format!("{:?}", reg.get("FGHIJ").unwrap()), before);
    assert_ne!(format!("{:?}", reg.get("ABCDE").unwrap().data.players[0].position), "Vector2 { x: 0, y: 0 }");
}
